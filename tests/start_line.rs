use potato::start_line::StartLine;
use potato::{Method, ParseError};

#[test]
fn test_from_request() {
    let line = "GET /path/to/resource?a=1&b=2 HTTP/2".to_owned();

    let res = StartLine::from_line(&line).unwrap();

    assert_eq!(res.line(), &line);
    assert_eq!(res.method(), &Method::GET);
    assert_eq!(res.target(), "/path/to/resource?a=1&b=2");
    assert_eq!(res.version(), &"HTTP/2");
}

#[test]
fn from_request_reads_like_from_line() {
    let res = StartLine::from_request("POST /a?b=c HTTP/1.1").unwrap();
    assert_eq!(res.method(), &Method::POST);
    assert_eq!(res.target(), "/a?b=c");
    assert_eq!(StartLine::from_request("").err(), Some(ParseError::NoMethod));
}

#[test]
fn start_line_errors() {
    assert_eq!(StartLine::from_line("").err(), Some(ParseError::NoMethod));
    assert_eq!(StartLine::from_line("   \t ").err(), Some(ParseError::NoMethod));
    assert_eq!(StartLine::from_line("PUT / HTTP/1.1").err(), Some(ParseError::InvalidMethod));
    assert_eq!(StartLine::from_line("get / HTTP/1.1").err(), Some(ParseError::InvalidMethod));
    assert_eq!(StartLine::from_line("GET").err(), Some(ParseError::NoTarget));
    assert_eq!(StartLine::from_line("DELETE /x").err(), Some(ParseError::NoVersion));
}

#[test]
fn start_line_splits_on_any_whitespace() {
    let res = StartLine::from_line("  PATCH\t/a\u{3000}HTTP/1.0 extra").unwrap();

    assert_eq!(res.method(), &Method::PATCH);
    assert_eq!(res.target(), "/a");
    assert_eq!(res.version(), "HTTP/1.0");
}

#[test]
fn start_line_new_and_default() {
    let line = StartLine::new(Method::POST, "/potato?id=1", "HTTP/1.1");
    assert_eq!(line.line(), "POST /potato?id=1 HTTP/1.1");
    assert_eq!(line.target(), "/potato?id=1");

    let default = StartLine::default();
    assert_eq!(default.line(), "GET / HTTP/1.1");
    assert_eq!(default.method(), &Method::GET);
}

#[test]
fn method_names() {
    assert_eq!(Method::GET.to_str(), "GET");
    assert_eq!(Method::POST.to_str(), "POST");
    assert_eq!(Method::PATCH.to_str(), "PATCH");
    assert_eq!(Method::DELETE.to_str(), "DELETE");
    assert_eq!("DELETE".parse::<Method>(), Ok(Method::DELETE));
    assert_eq!(Method::parse("HEAD"), Err(ParseError::InvalidMethod));
}
