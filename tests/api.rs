use chrono::TimeZone;
use potato::{App, Cookie, Method, Request, Response, Router, Status, Timestamp};

type Handler = fn(Request) -> Response;

fn get(request: Request) -> Response {
    let mut response = Response::new();
    response
        .with_header("Content-Type", "text/html")
        .with_cookie(Cookie {
            key: "secure",
            value: "and http only",
            expires: None,
            secure: true,
            http_only: true,
        })
        .with_cookie(Cookie {
            key: "notsecure",
            value: "with expiry",
            expires: Timestamp::from_unix(
                chrono::Utc.ymd(2022, 12, 1).and_hms(12, 00, 00).timestamp(),
            ),
            secure: false,
            http_only: false,
        })
        .with_content(format!(
            "You sent: {:?}, {} and {}",
            request.method(),
            request.target(),
            request.version()
        ));

    response
}

fn delete(request: Request) -> Response {
    let mut response = Response::new();

    let id = match request.query().get("id") {
        Some(id) => id,
        None => {
            response
                .with_status(Status::BadRequest)
                .with_content("You need to give an ID!".to_owned());
            return response;
        }
    };

    response.with_header("id", id);

    response
}

fn init() -> App<Handler> {
    let mut router: Router<Handler> = Router::new();

    router
        .add(Method::GET, "/potato", get)
        .add(Method::POST, "/potato", get)
        .add(Method::PATCH, "/potato", get)
        .add(Method::DELETE, "/potato", delete);

    App::new(router)
}

fn parse(raw: &str) -> Request {
    Request::from_bytes(raw.as_bytes()).unwrap()
}

#[test]
fn test_get() {
    let mut app = init();

    let request = parse("GET /potato HTTP/1.1\r\n\r\n");

    let response = app.request(request).unwrap();

    assert_eq!(response.status(), &Status::OK);
    assert_eq!(response.to_string(), "HTTP/1.1 200 OK\r\n\
Content-Length: 35\r\n\
Content-Type: text/html\r\n\
Set-Cookie: secure=and http only; Secure; HttpOnly\r\n\
Set-Cookie: notsecure=with expiry; Expires=Thu, 01 Dec 2022 12:00:00 +0000\r\n\r\n\
You sent: GET, /potato and HTTP/1.1".to_owned());
}

#[test]
fn test_post() {
    let mut app = init();

    let json = "\
{
    \"name\": \"bob\",
    \"age\": 22
}";

    let raw = format!("POST /potato HTTP/1.1\r\nContent-Length: {}\r\n\r\n{}", json.len(), json);
    let request = parse(&raw);
    assert_eq!(request.content(), &Some(json.to_owned()));

    let _response = app.request(request).unwrap();
}

#[test]
fn test_delete() {
    let mut app = init();

    let request = parse("DELETE /potato?id=1234 HTTP/1.1\r\n\r\n");

    let response = app.request(request).unwrap();

    assert_eq!(response.headers().get("id").unwrap(), "1234");
}

#[test]
fn delete_without_id_is_bad_request() {
    let mut app = init();

    let response = app.dispatch(parse("DELETE /potato HTTP/1.1\r\n\r\n"));

    assert_eq!(response.status(), &Status::BadRequest);
    assert_eq!(response.content(), "You need to give an ID!");

    let response = app.dispatch(parse("DELETE /potato?id=1234 HTTP/1.1\r\n\r\n"));
    assert_eq!(response.status(), &Status::OK);
    assert!(response.to_string().contains("\r\nid: 1234\r\n"));
}

#[test]
fn unmatched_path_is_not_found() {
    let mut app = init();

    let response = app.dispatch(parse("GET /carrot HTTP/1.1\r\n\r\n"));
    assert_eq!(response.status(), &Status::NotFound);
    assert_eq!(response.content(), "Not found");

    let response = app.request(parse("GET /carrot HTTP/1.1\r\n\r\n")).unwrap();
    assert_eq!(response.status(), &Status::NotFound);
    assert_eq!(response.content(), "Not found");
}

#[test]
fn other_version_matches_no_route() {
    let mut app = init();

    let response = app.dispatch(parse("GET /potato HTTP/2\r\n\r\n"));
    assert_eq!(response.status(), &Status::NotFound);
}

#[test]
fn handle_raw_bytes() {
    let mut app = init();
    app.build();

    let response = app.handle(b"GET /potato HTTP/1.1\r\nHost: x\r\n\r\n");
    assert_eq!(response.status(), &Status::OK);
    assert!(response.to_string().ends_with("You sent: GET, /potato and HTTP/1.1"));

    let response = app.handle(b"\r\n");
    assert_eq!(response.status(), &Status::BadRequest);
    assert_eq!(response.content(), "Bad request");

    let response = app.handle(b"PATCH /nothing HTTP/1.1\r\n\r\n");
    assert_eq!(response.status(), &Status::NotFound);
}

#[test]
fn first_registration_wins() {
    let mut router: Router<Handler> = Router::new();
    router.add(Method::DELETE, "/potato", delete).add(Method::DELETE, "/potato", get);
    router.build();
    let mut app = App::new(router);

    let response = app.dispatch(parse("DELETE /potato HTTP/1.1\r\n\r\n"));
    assert_eq!(response.status(), &Status::BadRequest);
}

#[test]
fn lookup_after_build_only() {
    let mut router: Router<Handler> = Router::new();
    router.add(Method::GET, "/potato", get);
    assert!(router.lookup("GET /potato HTTP/1.1").is_none());
    router.build();
    assert!(router.lookup("GET /potato HTTP/1.1").is_some());
    router.build();
    assert!(router.lookup("GET /potato HTTP/1.1").is_some());
    assert!(router.lookup("POST /potato HTTP/1.1").is_none());
}
