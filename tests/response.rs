use chrono::TimeZone;
use potato::cookie::render_cookie;
use potato::{Cookie, Response, Status, Timestamp};

fn expiry() -> Option<Timestamp> {
    Timestamp::from_unix(chrono::Utc.ymd(2022, 12, 1).and_hms(12, 00, 00).timestamp())
}

#[test]
fn response_it_works() {
    let expected = "HTTP/1.1 200 OK\r\n\
Content-Length: 18\r\n\
Content-Type: text/html\r\n\
Set-Cookie: darkmode=true; Secure; HttpOnly\r\n\
Set-Cookie: token=abcdefg; Expires=Thu, 01 Dec 2022 12:00:00 +0000; Secure; HttpOnly\r\n\r\n\
<h1> Welcome </h1>";

    let mut response = Response::new();

    response
        .with_header("Content-Type", "text/html")
        .with_cookie(Cookie {
            key: "darkmode",
            value: "true",
            expires: None,
            secure: true,
            http_only: true,
        })
        .with_cookie(Cookie {
            key: "token",
            value: "abcdefg",
            expires: expiry(),
            secure: true,
            http_only: true,
        })
        .with_content("<h1> Welcome </h1>".to_owned());

    assert_eq!(response.to_string(), expected);

    response.build();
    assert_eq!(response.raw(), expected);
}

#[test]
fn default_response() {
    let response = Response::new();
    assert_eq!(response.status(), &Status::OK);
    assert_eq!(response.to_string(), "HTTP/1.1 200 OK\r\nContent-Length: 0\r\n\r\n");
    assert_eq!(response.raw(), "HTTP/1.1 200 OK\r\n");
}

#[test]
fn content_length_counts_bytes() {
    let mut response = Response::new();
    response.with_status(Status::Created).with_content("h\u{e9}llo \u{1f954}".to_owned());
    let wire = response.to_string();
    assert_eq!(wire, "HTTP/1.1 201 Created\r\nContent-Length: 11\r\n\r\nh\u{e9}llo \u{1f954}");
    assert!(wire.ends_with(response.content().as_str()));
}

#[test]
fn header_overwrite_keeps_position() {
    let mut response = Response::new();
    response.with_header("A", "1").with_header("B", "2").with_header("A", "3");
    assert_eq!(response.headers().len(), 2);
    assert_eq!(response.headers().get("A"), Some(&"3".to_owned()));
    assert_eq!(
        response.to_string(),
        "HTTP/1.1 200 OK\r\nContent-Length: 0\r\nA: 3\r\nB: 2\r\n\r\n"
    );
}

#[test]
fn caller_content_length_is_not_written() {
    let mut response = Response::new();
    response
        .with_header("Content-Length", "99")
        .with_header("X", "y")
        .with_content("abc".to_owned());
    assert_eq!(
        response.to_string(),
        "HTTP/1.1 200 OK\r\nContent-Length: 3\r\nX: y\r\n\r\nabc"
    );
}

#[test]
fn status_lines() {
    assert_eq!(Status::OK.to_str(), "200 OK");
    assert_eq!(Status::Created.to_str(), "201 Created");
    assert_eq!(Status::BadRequest.to_str(), "400 Bad Request");
    assert_eq!(Status::NotFound.to_str(), "404 Not Found");
    assert_eq!(Status::ImATeaPot.to_str(), "418 I'm a teapot");
    assert_eq!(Status::Internal.to_str(), "500 Internal Server Error");
    let mut response = Response::new();
    response.with_status(Status::ImATeaPot).with_content("short and stout".to_owned());
    assert_eq!(
        response.to_string(),
        "HTTP/1.1 418 I'm a teapot\r\nContent-Length: 15\r\n\r\nshort and stout"
    );
}

#[test]
fn cookie_rendering() {
    let cookie = Cookie { key: "k", value: "v", expires: None, secure: false, http_only: false };
    assert_eq!(cookie.to_string(), "k=v");
    let cookie = Cookie { key: "k", value: "v", expires: expiry(), secure: false, http_only: true };
    assert_eq!(cookie.to_string(), "k=v; Expires=Thu, 01 Dec 2022 12:00:00 +0000; HttpOnly");
    assert_eq!(render_cookie("a", "b", Some("D"), true, false), "a=b; Expires=D; Secure");
    let mut response = Response::new();
    response.with_cookie(cookie);
    assert_eq!(response.cookies().len(), 1);
}

#[test]
fn timestamps_in_range() {
    assert!(Timestamp::from_unix(-62167219200).is_some());
    assert!(Timestamp::from_unix(-62167219201).is_none());
    assert!(Timestamp::from_unix(253402300799).is_some());
    assert!(Timestamp::from_unix(253402300800).is_none());
    let t = Timestamp::from_unix(0).unwrap();
    assert_eq!(t.unix(), 0);
    let cookie = Cookie { key: "e", value: "0", expires: Some(t), secure: false, http_only: false };
    assert_eq!(cookie.to_string(), "e=0; Expires=Thu, 01 Jan 1970 00:00:00 +0000");
}

#[test]
fn body_follows_first_blank_line() {
    let mut response = Response::new();
    response
        .with_status(Status::Created)
        .with_header("K", "v\r")
        .with_cookie(Cookie { key: "c", value: "\n", expires: None, secure: true, http_only: false })
        .with_content("line\r\n\r\nmore".to_owned());
    let wire = response.to_string();
    let at = wire.find("\r\n\r\n").unwrap();
    assert_eq!(&wire[at + 4..], "line\r\n\r\nmore");
    assert_eq!(wire.split("\r\n").nth(1), Some("Content-Length: 12"));
    response.build();
    assert_eq!(response.raw(), &wire);
}
