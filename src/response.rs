//! Building a response and writing it out in wire format.
use vstd::prelude::*;

pub use crate::cookie::Cookie;
pub use crate::status::Status;
use crate::status::status_text;
use crate::text::{same_text, byte_len, decimal, lemma_decimal_round_trip, parse_usize, push_decimal, utf8_len};
use crate::text_map::{map_of, Pairs, TextMap};

verus! {

/// The header lines of a list of pairs, in order. A `Content-Length`
/// header is left out: that line is always computed from the body.
pub open spec fn header_lines(ps: Pairs) -> Seq<char>
    decreases ps.len(),
{
    if ps.len() == 0 {
        Seq::empty()
    } else if ps.last().0 == "Content-Length"@ {
        header_lines(ps.drop_last())
    } else {
        header_lines(ps.drop_last()) + ps.last().0 + ": "@ + ps.last().1 + "\r\n"@
    }
}

/// One `Set-Cookie` line per cookie, in order.
pub open spec fn cookie_lines(cs: Seq<Seq<char>>) -> Seq<char>
    decreases cs.len(),
{
    if cs.len() == 0 {
        Seq::empty()
    } else {
        cookie_lines(cs.drop_last()) + "Set-Cookie: "@ + cs.last() + "\r\n"@
    }
}

/// What a response holds: its headers in the order they were first set,
/// and its rendered cookies in the order they were added.
pub struct ResponseModel {
    pub status: Status,
    pub headers: Pairs,
    pub cookies: Seq<Seq<char>>,
    pub content: Seq<char>,
}

/// Everything before the body: the status line, the `Content-Length` line,
/// the headers, the cookies and the blank line.
pub open spec fn wire_head(r: ResponseModel) -> Seq<char> {
    "HTTP/1.1 "@ + status_text(r.status) + "\r\n"@ + "Content-Length: "@ + decimal(
        byte_len(r.content),
    ) + "\r\n"@ + header_lines(r.headers) + cookie_lines(r.cookies) + "\r\n"@
}

/// The response as written on the wire.
pub open spec fn wire(r: ResponseModel) -> Seq<char> {
    wire_head(r) + r.content
}

/// Serializing a response writes its body last and unchanged, after a
/// `Content-Length` line whose number, read back, is the body's exact byte
/// length.
pub proof fn lemma_wire_frames_content(r: ResponseModel)
    requires
        byte_len(r.content) <= usize::MAX,
    ensures
        wire(r) == "HTTP/1.1 "@ + status_text(r.status) + "\r\n"@ + "Content-Length: "@ + decimal(
            byte_len(r.content),
        ) + "\r\n"@ + (header_lines(r.headers) + cookie_lines(r.cookies) + "\r\n"@) + r.content,
        parse_usize(decimal(byte_len(r.content))) == Some(byte_len(r.content)),
        wire(r).subrange(wire(r).len() - r.content.len(), wire(r).len() as int) == r.content,
{
    lemma_decimal_round_trip(byte_len(r.content));
    let w = wire(r);
    let h = wire_head(r);
    assert(w.subrange(h.len() as int, w.len() as int) =~= r.content);
}

/// A `\r\n` starts at `s[j]`.
pub open spec fn crlf_at(s: Seq<char>, j: int) -> bool {
    0 <= j && j + 1 < s.len() && s[j] == '\r' && s[j + 1] == '\n'
}

/// A blank line, `\r\n\r\n`, starts at `s[j]`.
pub open spec fn blank_at(s: Seq<char>, j: int) -> bool {
    crlf_at(s, j) && crlf_at(s, j + 2)
}

/// A text with no `\r\n` in it.
pub open spec fn no_crlf(s: Seq<char>) -> bool {
    forall|j: int| !#[trigger] crlf_at(s, j)
}

/// A text with no blank line, `\r\n\r\n`, in it.
pub open spec fn no_blank(s: Seq<char>) -> bool {
    forall|j: int| !#[trigger] blank_at(s, j)
}

/// A text that ends with `\r\n`.
pub open spec fn ends_crlf(s: Seq<char>) -> bool {
    s.len() >= 2 && s[s.len() - 2] == '\r' && s[s.len() - 1] == '\n'
}

proof fn lemma_no_crlf_join(a: Seq<char>, b: Seq<char>)
    requires
        no_crlf(a),
        no_crlf(b),
        !(a.len() > 0 && b.len() > 0 && a.last() == '\r' && b[0] == '\n'),
    ensures
        no_crlf(a + b),
{
    let s = a + b;
    assert forall|j: int| !#[trigger] crlf_at(s, j) by {
        if crlf_at(s, j) {
            if j + 1 < a.len() {
                assert(crlf_at(a, j));
            } else if j >= a.len() {
                assert(crlf_at(b, j - a.len()));
            } else {
                assert(s[j] == a.last());
                assert(s[j + 1] == b[0]);
            }
        }
    }
}

proof fn lemma_no_crlf_literal(t: Seq<char>)
    requires
        forall|j: int| 0 <= j < t.len() ==> #[trigger] t[j] != '\r',
    ensures
        no_crlf(t),
{
    assert forall|j: int| !#[trigger] crlf_at(t, j) by {
        if crlf_at(t, j) {
            assert(t[j] != '\r');
        }
    }
}

/// Adding a line that holds no `\r\n` of its own to lines without a blank
/// one adds no blank line.
proof fn lemma_add_line(s: Seq<char>, x: Seq<char>)
    requires
        no_blank(s),
        s.len() == 0 || ends_crlf(s),
        no_crlf(x),
        x.len() > 0,
    ensures
        no_blank(s + x + "\r\n"@),
        ends_crlf(s + x + "\r\n"@),
{
    reveal_strlit("\r\n");
    let t = s + x + "\r\n"@;
    let n = s.len() as int;
    let m = n + x.len();
    assert(t[m] == '\r' && t[m + 1] == '\n');
    assert forall|j: int| !#[trigger] blank_at(t, j) by {
        if blank_at(t, j) {
            if j + 3 < n {
                assert(t[j] == s[j] && t[j + 1] == s[j + 1] && t[j + 2] == s[j + 2] && t[j + 3] == s[j + 3]);
                assert(blank_at(s, j));
            } else if j == n - 3 {
                assert(t[j + 1] == s[n - 2]);
            } else if j == n - 2 {
                if x.len() >= 2 {
                    assert(crlf_at(x, 0));
                } else {
                    assert(t[j + 3] == t[m]);
                }
            } else if j == n - 1 {
                assert(t[j] == s[n - 1]);
            } else if j + 1 < m {
                assert(crlf_at(x, j - n));
            } else if j + 1 == m {
                assert(t[j + 1] == t[m]);
            } else {
                assert(j + 2 >= m);
            }
        }
    }
}

proof fn lemma_header_lines_no_blank(s: Seq<char>, ps: Pairs)
    requires
        no_blank(s),
        ends_crlf(s),
        forall|i: int| 0 <= i < ps.len() ==> no_crlf(#[trigger] ps[i].0) && no_crlf(ps[i].1),
    ensures
        no_blank(s + header_lines(ps)),
        ends_crlf(s + header_lines(ps)),
    decreases ps.len(),
{
    reveal_strlit(": ");
    if ps.len() > 0 {
        let q = ps.drop_last();
        assert forall|i: int| 0 <= i < q.len() implies no_crlf(#[trigger] q[i].0) && no_crlf(
            q[i].1,
        ) by {
            assert(q[i] == ps[i]);
        }
        lemma_header_lines_no_blank(s, q);
        let k = ps.last().0;
        let v = ps.last().1;
        assert(no_crlf(k) && no_crlf(v));
        if k != "Content-Length"@ {
            lemma_no_crlf_literal(": "@);
            lemma_no_crlf_join(k, ": "@);
            lemma_no_crlf_join(k + ": "@, v);
            lemma_add_line(s + header_lines(q), k + ": "@ + v);
            assert(s + header_lines(ps) =~= s + header_lines(q) + (k + ": "@ + v) + "\r\n"@);
        }
    } else {
        assert(s + header_lines(ps) =~= s);
    }
}

proof fn lemma_cookie_lines_no_blank(s: Seq<char>, cs: Seq<Seq<char>>)
    requires
        no_blank(s),
        ends_crlf(s),
        forall|i: int| 0 <= i < cs.len() ==> no_crlf(#[trigger] cs[i]),
    ensures
        no_blank(s + cookie_lines(cs)),
        ends_crlf(s + cookie_lines(cs)),
    decreases cs.len(),
{
    reveal_strlit("Set-Cookie: ");
    if cs.len() > 0 {
        let q = cs.drop_last();
        assert forall|i: int| 0 <= i < q.len() implies no_crlf(#[trigger] q[i]) by {
            assert(q[i] == cs[i]);
        }
        lemma_cookie_lines_no_blank(s, q);
        let c = cs.last();
        assert(no_crlf(c));
        lemma_no_crlf_literal("Set-Cookie: "@);
        lemma_no_crlf_join("Set-Cookie: "@, c);
        lemma_add_line(s + cookie_lines(q), "Set-Cookie: "@ + c);
        assert(s + cookie_lines(cs) =~= s + cookie_lines(q) + ("Set-Cookie: "@ + c) + "\r\n"@);
    } else {
        assert(s + cookie_lines(cs) =~= s);
    }
}

proof fn lemma_status_text_no_cr(st: Status)
    ensures
        forall|j: int| 0 <= j < status_text(st).len() ==> #[trigger] status_text(st)[j] != '\r',
{
    reveal_strlit("200 OK");
    reveal_strlit("201 Created");
    reveal_strlit("400 Bad Request");
    reveal_strlit("404 Not Found");
    reveal_strlit("418 I'm a teapot");
    reveal_strlit("500 Internal Server Error");
}

/// When no header name, header value or cookie holds `\r\n`, the first
/// blank line of a serialized response is the one that ends its head, so
/// the text after the first blank line is exactly the body.
pub proof fn lemma_body_follows_first_blank_line(r: ResponseModel)
    requires
        forall|i: int| 0 <= i < r.headers.len() ==> no_crlf(#[trigger] r.headers[i].0) && no_crlf(
            r.headers[i].1,
        ),
        forall|i: int| 0 <= i < r.cookies.len() ==> no_crlf(#[trigger] r.cookies[i]),
    ensures
        ({
            let w = wire(r);
            let e = wire_head(r).len() - 4;
            &&& blank_at(w, e)
            &&& forall|j: int| j < e ==> !#[trigger] blank_at(w, j)
            &&& w.subrange(e + 4, w.len() as int) == r.content
        }),
{
    reveal_strlit("HTTP/1.1 ");
    reveal_strlit("Content-Length: ");
    reveal_strlit("\r\n");
    let status_line = "HTTP/1.1 "@ + status_text(r.status);
    lemma_status_text_no_cr(r.status);
    lemma_no_crlf_literal("HTTP/1.1 "@);
    lemma_no_crlf_literal(status_text(r.status));
    lemma_no_crlf_join("HTTP/1.1 "@, status_text(r.status));
    let empty = Seq::<char>::empty();
    assert(no_blank(empty));
    lemma_add_line(empty, status_line);
    let s1 = empty + status_line + "\r\n"@;
    let d = decimal(byte_len(r.content));
    crate::text::lemma_decimal_digits(byte_len(r.content));
    assert forall|j: int| 0 <= j < d.len() implies #[trigger] d[j] != '\r' by {
        assert(crate::text::is_digit(d[j]));
    }
    lemma_no_crlf_literal("Content-Length: "@);
    lemma_no_crlf_literal(d);
    lemma_no_crlf_join("Content-Length: "@, d);
    lemma_add_line(s1, "Content-Length: "@ + d);
    let s2 = s1 + ("Content-Length: "@ + d) + "\r\n"@;
    lemma_header_lines_no_blank(s2, r.headers);
    let s3 = s2 + header_lines(r.headers);
    lemma_cookie_lines_no_blank(s3, r.cookies);
    let s4 = s3 + cookie_lines(r.cookies);
    let h = wire_head(r);
    assert(h =~= s4 + "\r\n"@);
    let w = wire(r);
    let n = s4.len() as int;
    let e = h.len() - 4;
    assert(e == n - 2);
    assert(w[n] == '\r' && w[n + 1] == '\n');
    assert(w[n - 2] == s4[n - 2] && w[n - 1] == s4[n - 1]);
    assert(blank_at(w, e));
    assert forall|j: int| j < e implies !#[trigger] blank_at(w, j) by {
        if blank_at(w, j) {
            if j + 3 < n {
                assert(w[j] == s4[j] && w[j + 1] == s4[j + 1] && w[j + 2] == s4[j + 2] && w[j + 3]
                    == s4[j + 3]);
                assert(blank_at(s4, j));
            } else {
                assert(j == n - 3);
                assert(w[j + 1] == s4[n - 2]);
            }
        }
    }
    assert(w.subrange(e + 4, w.len() as int) =~= r.content);
}

#[derive(Debug)]
pub struct Response {
    status: Status,
    headers: TextMap,
    cookies: Vec<String>,
    content: String,
    raw: String,
}

impl View for Response {
    type V = ResponseModel;

    closed spec fn view(&self) -> ResponseModel {
        ResponseModel {
            status: self.status,
            headers: self.headers.pairs(),
            cookies: self.cookies@.map_values(|c: String| c@),
            content: self.content@,
        }
    }
}

impl Response {
    /// The header map is well formed.
    pub closed spec fn wf(&self) -> bool {
        self.headers.wf()
    }

    /// The text `build` last wrote.
    pub closed spec fn raw_text(&self) -> Seq<char> {
        self.raw@
    }

    /// A `200 OK` response with no headers, no cookies and no body.
    pub fn new() -> (r: Response)
        ensures
            r.wf(),
            r@.status == Status::OK,
            r@.headers.len() == 0,
            r@.cookies.len() == 0,
            r@.content.len() == 0,
            r.raw_text() == "HTTP/1.1 200 OK\r\n"@,
    {
        let r = Response {
            status: Status::OK,
            headers: TextMap::new(),
            cookies: Vec::new(),
            content: String::new(),
            raw: "HTTP/1.1 200 OK\r\n".to_owned(),
        };
        assert(r@.cookies =~= Seq::<Seq<char>>::empty());
        r
    }

    pub fn with_status(&mut self, status: Status) -> (r: &mut Response)
        ensures
            r@ == (ResponseModel { status, ..old(self)@ }),
            r.wf() == old(self).wf(),
            r.raw_text() == old(self).raw_text(),
            *final(self) == *final(r),
    {
        self.status = status;
        self
    }

    /// Sets a header, replacing the value it had.
    pub fn with_header(&mut self, key: &str, value: &str) -> (r: &mut Response)
        requires
            old(self).wf(),
        ensures
            r.wf(),
            r@ == (ResponseModel {
                headers: crate::text_map::put(old(self)@.headers, key@, value@),
                ..old(self)@
            }),
            map_of(r@.headers) == map_of(old(self)@.headers).insert(key@, value@),
            r.raw_text() == old(self).raw_text(),
            *final(self) == *final(r),
    {
        self.headers.insert(key.to_owned(), value.to_owned());
        self
    }

    /// Adds a cookie after those already there.
    pub fn with_cookie(&mut self, cookie: Cookie) -> (r: &mut Response)
        ensures
            r.wf() == old(self).wf(),
            r@ == (ResponseModel {
                cookies: old(self)@.cookies.push(
                    crate::cookie::cookie_text(
                        cookie.key@,
                        cookie.value@,
                        crate::cookie::expiry_text(cookie.expires),
                        cookie.secure,
                        cookie.http_only,
                    ),
                ),
                ..old(self)@
            }),
            r.raw_text() == old(self).raw_text(),
            *final(self) == *final(r),
    {
        let text = cookie.to_string();
        self.cookies.push(text);
        assert(self@.cookies =~= old(self)@.cookies.push(text@));
        self
    }

    /// Sets the body.
    pub fn with_content(&mut self, content: String) -> (r: &mut Response)
        ensures
            r@ == (ResponseModel { content: content@, ..old(self)@ }),
            r.wf() == old(self).wf(),
            r.raw_text() == old(self).raw_text(),
            *final(self) == *final(r),
    {
        self.content = content;
        self
    }

    pub fn status(&self) -> (r: &Status)
        ensures
            *r == self@.status,
    {
        &self.status
    }

    pub fn headers(&self) -> (r: &TextMap)
        requires
            self.wf(),
        ensures
            r.wf(),
            r.pairs() == self@.headers,
    {
        &self.headers
    }

    pub fn cookies(&self) -> (r: &Vec<String>)
        ensures
            r@.map_values(|c: String| c@) == self@.cookies,
    {
        &self.cookies
    }

    pub fn content(&self) -> (r: &String)
        ensures
            r@ == self@.content,
    {
        &self.content
    }

    pub fn raw(&self) -> (r: &String)
        ensures
            r@ == self.raw_text(),
    {
        &self.raw
    }

    /// The response in wire format.
    pub fn to_string(&self) -> (r: String)
        ensures
            r@ == wire(self@),
    {
        let mut out = String::new();
        out.append("HTTP/1.1 ");
        out.append(self.status.to_str());
        out.append("\r\n");
        out.append("Content-Length: ");
        push_decimal(&mut out, utf8_len(self.content.as_str()));
        out.append("\r\n");
        let ghost head = out@;
        let ghost pairs = self.headers.pairs();
        let n = self.headers.pairs_len();
        let mut i: usize = 0;
        assert(pairs.subrange(0, 0) =~= Seq::<(Seq<char>, Seq<char>)>::empty());
        while i < n
            invariant
                n == pairs.len(),
                pairs == self.headers.pairs(),
                i <= n,
                out@ == head + header_lines(pairs.subrange(0, i as int)),
            decreases n - i,
        {
            let ghost prev = out@;
            let key = self.headers.key_at(i);
            assert(pairs.subrange(0, i + 1).drop_last() =~= pairs.subrange(0, i as int));
            if !same_text(key.as_str(), "Content-Length") {
                out.append(key.as_str());
                out.append(": ");
                out.append(self.headers.value_at(i).as_str());
                out.append("\r\n");
                assert(out@ =~= prev + pairs[i as int].0 + ": "@ + pairs[i as int].1 + "\r\n"@);
            }
            i = i + 1;
        }
        assert(pairs.subrange(0, n as int) =~= pairs);
        let ghost with_headers = out@;
        let ghost cookies = self@.cookies;
        let m = self.cookies.len();
        let mut j: usize = 0;
        assert(cookies.subrange(0, 0) =~= Seq::<Seq<char>>::empty());
        while j < m
            invariant
                m == cookies.len(),
                cookies == self.cookies@.map_values(|c: String| c@),
                j <= m,
                out@ == with_headers + cookie_lines(cookies.subrange(0, j as int)),
            decreases m - j,
        {
            let ghost prev = out@;
            out.append("Set-Cookie: ");
            out.append(self.cookies[j].as_str());
            out.append("\r\n");
            assert(cookies.subrange(0, j + 1).drop_last() =~= cookies.subrange(0, j as int));
            assert(out@ =~= prev + "Set-Cookie: "@ + cookies[j as int] + "\r\n"@);
            j = j + 1;
        }
        assert(cookies.subrange(0, m as int) =~= cookies);
        out.append("\r\n");
        out.append(self.content.as_str());
        assert(out@ =~= wire(self@));
        out
    }

    /// Writes the response out and keeps the text, which `raw` then gives.
    pub fn build(&mut self)
        ensures
            final(self)@ == old(self)@,
            final(self).wf() == old(self).wf(),
            final(self).raw_text() == wire(old(self)@),
    {
        self.raw = self.to_string();
    }
}

} // verus!
