//! Dispatch: from a request, or from the bytes of one, to the response.
use vstd::prelude::*;

use vstd::utf8::encode_utf8;

use crate::method::{lemma_method_name_injective, method_name, Method};
use crate::path_and_query::{lacks, lemma_char_index_run, target_path};
use crate::request::{
    lemma_first_line, lemma_single_line_request, lookup_key, read_request, route_key_of, Request,
};
use crate::response::{Response, ResponseModel};
use crate::router::{drain, lemma_drain_registered, registration_key, Router};
use crate::start_line::{lemma_three_words, no_ws, read_start_line};
use crate::status::Status;
use crate::text::is_ws;

verus! {

/// The response to a request that no route matches.
pub open spec fn is_not_found(r: ResponseModel) -> bool {
    &&& r.status == Status::NotFound
    &&& r.headers.len() == 0
    &&& r.cookies.len() == 0
    &&& r.content == "Not found"@
}

/// The response to bytes that do not read as a request.
pub open spec fn is_bad_request(r: ResponseModel) -> bool {
    &&& r.status == Status::BadRequest
    &&& r.headers.len() == 0
    &&& r.cookies.len() == 0
    &&& r.content == "Bad request"@
}

/// The line `METHOD path HTTP/1.1`.
pub open spec fn request_line(m: Method, path: Seq<char>) -> Seq<char> {
    method_name(m) + " "@ + path + " "@ + "HTTP/1.1"@
}

/// Once built, a table where `METHOD path` was registered with handler `h`,
/// after no other registration under that key, dispatches to `h` every
/// request whose first line is `METHOD path HTTP/1.1`, whatever follows;
/// and such a line followed by a blank line reads as a request.
pub proof fn lemma_registered_route_is_dispatched<H>(
    t: Map<Seq<char>, H>,
    p: Seq<(Seq<char>, H)>,
    m: Method,
    path: Seq<char>,
    h: H,
    rest: Seq<u8>,
)
    requires
        path.len() > 0 && path[0] == '/',
        no_ws(path),
        lacks(path, '?'),
        forall|i: int| 0 <= i < p.len() ==> (#[trigger] p[i]).0 != registration_key(m, path),
    ensures
        ({
            let b = encode_utf8(request_line(m, path)) + seq![13u8, 10u8] + rest;
            let table = drain(t, p.push((registration_key(m, path), h)));
            &&& read_request(b) is Ok ==> lookup_key(read_request(b)->Ok_0) == registration_key(
                m,
                path,
            )
            &&& table.contains_key(registration_key(m, path))
            &&& table[registration_key(m, path)] == h
            &&& rest == seq![13u8, 10u8] ==> read_request(b) is Ok
        }),
{
    broadcast use vstd::utf8::group_utf8_lib;

    reveal_strlit(" ");
    reveal_strlit("HTTP/1.1");
    reveal_strlit("GET");
    reveal_strlit("POST");
    reveal_strlit("PATCH");
    reveal_strlit("DELETE");
    lemma_drain_registered(t, p, registration_key(m, path), h);
    let name = method_name(m);
    let version = "HTTP/1.1"@;
    let line = request_line(m, path);
    assert forall|i: int| 0 <= i < line.len() implies #[trigger] line[i] != '\n' by {
        let a = name.len() as int;
        let c = a + 1 + path.len();
        if a < i && i < c {
            assert(line[i] == path[i - a - 1]);
            assert(!is_ws(path[i - a - 1]));
        } else if i > c {
            assert(line[i] == version[i - c - 1]);
        } else if i < a {
            assert(line[i] == name[i]);
        }
    }
    lemma_first_line(line, rest);
    lemma_single_line_request(line);
    assert(no_ws(name));
    assert(no_ws(version));
    lemma_three_words(name, path, version);
    lemma_method_name_injective(m, m);
    lemma_char_index_run(path, '?', 0, path.len() as int);
    assert(target_path(path) == path);
    let start = read_start_line(line)->Ok_0;
    assert(read_start_line(line) is Ok);
    assert(route_key_of(start.method, target_path(start.target), start.version) == Some(
        registration_key(m, path),
    ));
}

fn not_found() -> (r: Response)
    ensures
        is_not_found(r@),
        r@.content.len() > 0,
        r.wf(),
{
    let mut r = Response::new();
    r.with_status(Status::NotFound).with_content("Not found".to_owned());
    proof {
        reveal_strlit("Not found");
    }
    r
}

fn bad_request() -> (r: Response)
    ensures
        is_bad_request(r@),
        r.wf(),
{
    let mut r = Response::new();
    r.with_status(Status::BadRequest).with_content("Bad request".to_owned());
    r
}

pub struct App<H> {
    router: Router<H>,
}

impl<H: Fn(Request) -> Response> App<H> {
    /// The router is well formed.
    pub closed spec fn wf(&self) -> bool {
        self.router.wf()
    }

    /// The live route table.
    pub closed spec fn table(&self) -> Map<Seq<char>, H> {
        self.router.table()
    }

    /// The routes registered and not yet built into the table.
    pub closed spec fn pending(&self) -> Seq<(Seq<char>, H)> {
        self.router.pending()
    }

    pub fn new(router: Router<H>) -> (r: App<H>)
        requires
            router.wf(),
        ensures
            r.wf(),
            r.table() == router.table(),
            r.pending() == router.pending(),
    {
        App { router }
    }

    /// Moves the registered routes into the live table.
    pub fn build(&mut self)
        requires
            old(self).wf(),
        ensures
            final(self).wf(),
            final(self).table() == drain(old(self).table(), old(self).pending()),
            final(self).pending().len() == 0,
    {
        self.router.build();
    }

    /// Answers a request from the live table: the matching handler's
    /// response, or `404 Not Found` when no route matches. At most one
    /// handler runs.
    pub fn respond(&self, request: Request) -> (r: Response)
        requires
            self.wf(),
        ensures
            self.table().contains_key(lookup_key(request@)) ==> call_ensures(
                self.table()[lookup_key(request@)],
                (request,),
                r,
            ),
            !self.table().contains_key(lookup_key(request@)) ==> is_not_found(r@) && r@.content.len()
                > 0,
    {
        proof {
            self.router.lemma_handlers_total();
        }
        let handler = match self.router.lookup(request.get_route_key()) {
            Some(h) => h,
            None => return not_found(),
        };
        handler(request)
    }

    /// Builds the table, then answers the request from it.
    pub fn dispatch(&mut self, request: Request) -> (r: Response)
        requires
            old(self).wf(),
        ensures
            final(self).wf(),
            final(self).table() == drain(old(self).table(), old(self).pending()),
            final(self).pending().len() == 0,
            final(self).table().contains_key(lookup_key(request@)) ==> call_ensures(
                final(self).table()[lookup_key(request@)],
                (request,),
                r,
            ),
            !final(self).table().contains_key(lookup_key(request@)) ==> is_not_found(r@)
                && r@.content.len() > 0,
    {
        self.build();
        self.respond(request)
    }

    /// Builds the table, then runs the matching handler; a `404 Not Found`
    /// response with a plain-text body when no route matches.
    pub fn request(&mut self, request: Request) -> (r: Result<Response, Status>)
        requires
            old(self).wf(),
        ensures
            final(self).wf(),
            final(self).table() == drain(old(self).table(), old(self).pending()),
            final(self).pending().len() == 0,
            r is Ok,
            final(self).table().contains_key(lookup_key(request@)) ==> call_ensures(
                final(self).table()[lookup_key(request@)],
                (request,),
                r->Ok_0,
            ),
            !final(self).table().contains_key(lookup_key(request@)) ==> is_not_found(r->Ok_0@)
                && r->Ok_0@.content.len() > 0,
    {
        self.build();
        proof {
            self.router.lemma_handlers_total();
        }
        let handler = match self.router.lookup(request.get_route_key()) {
            Some(h) => h,
            None => return Ok(not_found()),
        };
        Ok(handler(request))
    }

    /// Answers the bytes of one request from the live table: `400 Bad
    /// Request` when they do not read as a request, else as `respond` does.
    pub fn handle(&self, input: &[u8]) -> (r: Response)
        requires
            self.wf(),
        ensures
            read_request(input@) is Err ==> is_bad_request(r@),
            read_request(input@) is Ok ==> {
                let k = lookup_key(read_request(input@)->Ok_0);
                &&& self.table().contains_key(k) ==> exists|req: Request|
                    req@ == read_request(input@)->Ok_0 && call_ensures(self.table()[k], (req,), r)
                &&& !self.table().contains_key(k) ==> is_not_found(r@)
            },
    {
        match Request::from_bytes(input) {
            Ok(request) => self.respond(request),
            Err(_) => bad_request(),
        }
    }
}

} // verus!
