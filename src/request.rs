//! Parsing a request from the bytes a client sent: the start line, the
//! header block up to the first blank line, and a body whose length the
//! `Content-Length` header gives.
use vstd::prelude::*;
use vstd::slice::slice_subrange;
use vstd::utf8::*;

pub use crate::method::Method;
use crate::method::method_name;
use crate::path_and_query::{lacks, lemma_target_round_trip, query_params, target_path, target_query, PathAndQuery};
use crate::start_line::{lemma_three_words, no_ws, read_start_line, words, StartLine, StartLineModel};
use crate::text::{chars_of, decode_utf8_bytes, is_ws, parse_decimal, parse_usize};
use crate::text_map::TextMap;

verus! {

/// Why a request could not be read.
#[derive(Debug, Clone, Copy, PartialEq, Eq, Structural)]
pub enum ParseError {
    NoStartLine,
    NoMethod,
    NoTarget,
    NoVersion,
    InvalidMethod,
    InvalidContentLength,
    UnexpectedEof,
    ReadError,
}

/// A line without the `\r` that ended it, if one did.
pub open spec fn strip_cr(x: Seq<u8>) -> Seq<u8> {
    if x.len() > 0 && x.last() == 13u8 {
        x.drop_last()
    } else {
        x
    }
}

/// The line that began with `cur` and goes on at `b[i..]`, and where the
/// line after it starts. A line ends at `\n`, which is dropped together
/// with a `\r` before it, or at the end of the bytes.
pub open spec fn line_from(b: Seq<u8>, i: int, cur: Seq<u8>) -> (Seq<u8>, int)
    decreases b.len() - i,
{
    if i < 0 || i >= b.len() {
        (cur, b.len() as int)
    } else if b[i] == 10u8 {
        (strip_cr(cur), i + 1)
    } else {
        line_from(b, i + 1, cur.push(b[i]))
    }
}

/// The line that starts at `b[i]`, and where the next one starts.
pub open spec fn line_at(b: Seq<u8>, i: int) -> (Seq<u8>, int) {
    line_from(b, i, Seq::empty())
}

/// A line that starts inside the bytes ends after its start.
pub proof fn lemma_line_from_advances(b: Seq<u8>, i: int, cur: Seq<u8>)
    requires
        0 <= i < b.len(),
    ensures
        i < line_from(b, i, cur).1 <= b.len(),
    decreases b.len() - i,
{
    if b[i] != 10u8 {
        if i + 1 < b.len() {
            lemma_line_from_advances(b, i + 1, cur.push(b[i]));
        } else {
            assert(line_from(b, i + 1, cur.push(b[i])).1 == b.len());
        }
    }
}

/// Reading over bytes that hold no `\n` adds them to the current line.
pub proof fn lemma_line_from_run(b: Seq<u8>, i: int, j: int, cur: Seq<u8>)
    requires
        0 <= i <= j <= b.len(),
        forall|k: int| i <= k < j ==> #[trigger] b[k] != 10u8,
    ensures
        line_from(b, i, cur) == line_from(b, j, cur + b.subrange(i, j)),
    decreases j - i,
{
    if i < j {
        lemma_line_from_run(b, i + 1, j, cur.push(b[i]));
        assert(cur.push(b[i]) + b.subrange(i + 1, j) =~= cur + b.subrange(i, j));
    } else {
        assert(cur + b.subrange(i, j) =~= cur);
    }
}

proof fn lemma_scalar_no_newline(v: u32)
    requires
        v != 10,
    ensures
        forall|k: int| 0 <= k < encode_scalar(v).len() ==> #[trigger] encode_scalar(v)[k] != 10u8,
{
    let a = (v & 0x7F) as u8;
    let b2 = ((v >> 6) & 0x1F) as u8;
    let b3 = ((v >> 12) & 0x0F) as u8;
    let b4 = ((v >> 18) & 0x7) as u8;
    let c1 = (v & 0x3F) as u8;
    let c2 = ((v >> 6) & 0x3F) as u8;
    let c3 = ((v >> 12) & 0x3F) as u8;
    assert(v <= 0x7F ==> (v & 0x7F) as u8 != 10u8) by (bit_vector)
        requires
            v != 10,
    ;
    assert(0xC0u8 | b2 != 10u8 && 0xE0u8 | b3 != 10u8 && 0xF0u8 | b4 != 10u8) by (bit_vector);
    assert(0x80u8 | c1 != 10u8 && 0x80u8 | c2 != 10u8 && 0x80u8 | c3 != 10u8) by (bit_vector);
}

/// The UTF-8 encoding of a text without `\n` holds no byte 10.
pub proof fn lemma_encode_no_newline(s: Seq<char>)
    requires
        forall|i: int| 0 <= i < s.len() ==> #[trigger] s[i] != '\n',
    ensures
        forall|k: int| 0 <= k < encode_utf8(s).len() ==> #[trigger] encode_utf8(s)[k] != 10u8,
    decreases s.len(),
{
    if s.len() > 0 {
        let t = s.drop_first();
        assert forall|i: int| 0 <= i < t.len() implies #[trigger] t[i] != '\n' by {
            assert(t[i] == s[i + 1]);
        }
        lemma_encode_no_newline(t);
        assert(s[0] != '\n');
        if s[0] as u32 == 10 {
            vstd::utf8::char_u32_cast(s[0], 10);
            assert((10u32 as char) == '\n');
        }
        lemma_scalar_no_newline(s[0] as u32);
        let e = encode_scalar(s[0] as u32);
        assert forall|k: int| 0 <= k < encode_utf8(s).len() implies #[trigger] encode_utf8(s)[k]
            != 10u8 by {
            if k < e.len() {
                assert(encode_utf8(s)[k] == e[k]);
            } else {
                assert(encode_utf8(s)[k] == encode_utf8(t)[k - e.len()]);
            }
        }
    }
}

/// The header lines from `b[i]` up to the first blank line or the end of
/// the bytes, and where what follows them starts.
pub open spec fn header_block(b: Seq<u8>, i: int) -> (Seq<Seq<u8>>, int)
    decreases b.len() - i,
{
    if i < 0 || i >= b.len() {
        (Seq::empty(), b.len() as int)
    } else {
        let (l, next) = line_at(b, i);
        if l.len() == 0 {
            (Seq::empty(), next)
        } else {
            proof {
                lemma_line_from_advances(b, i, Seq::empty());
            }
            let rest = header_block(b, next);
            (seq![l] + rest.0, rest.1)
        }
    }
}

/// The first position `j >= i` where `": "` starts, or the length.
pub open spec fn separator_index(s: Seq<char>, i: int) -> int
    decreases s.len() - i,
{
    if i < 0 || i + 1 >= s.len() {
        s.len() as int
    } else if s[i] == ':' && s[i + 1] == ' ' {
        i
    } else {
        separator_index(s, i + 1)
    }
}

/// A header line split at its first `": "`; a line without one holds no
/// header.
pub open spec fn header_entry(l: Seq<char>) -> Option<(Seq<char>, Seq<char>)> {
    let j = separator_index(l, 0);
    if j < l.len() {
        Some((l.subrange(0, j), l.subrange(j + 2, l.len() as int)))
    } else {
        None
    }
}

/// The headers of a list of header lines; a later line wins over an earlier
/// one with the same name.
pub open spec fn header_map(ls: Seq<Seq<char>>) -> Map<Seq<char>, Seq<char>>
    decreases ls.len(),
{
    if ls.len() == 0 {
        Map::empty()
    } else {
        let m = header_map(ls.drop_last());
        match header_entry(ls.last()) {
            Some(kv) => m.insert(kv.0, kv.1),
            None => m,
        }
    }
}

/// Every line is valid UTF-8.
pub open spec fn all_utf8(ls: Seq<Seq<u8>>) -> bool {
    forall|i: int| 0 <= i < ls.len() ==> valid_utf8(#[trigger] ls[i])
}

/// The text of each line.
pub open spec fn decode_all(ls: Seq<Seq<u8>>) -> Seq<Seq<char>> {
    ls.map_values(|l: Seq<u8>| decode_utf8(l))
}

/// The key under which a request is dispatched: method, path and version
/// separated by single spaces; none for an empty path.
pub open spec fn route_key_of(m: Method, path: Seq<char>, version: Seq<char>) -> Option<Seq<char>> {
    if path.len() == 0 {
        None
    } else {
        Some(method_name(m) + " "@ + path + " "@ + version)
    }
}

/// What a request holds once read.
pub struct RequestModel {
    pub start: StartLineModel,
    pub path: Seq<char>,
    pub query: Map<Seq<char>, Seq<char>>,
    pub headers: Map<Seq<char>, Seq<char>>,
    pub route_key: Option<Seq<char>>,
    pub content: Option<Seq<char>>,
}

/// The request read from a start line, its headers and its body.
pub open spec fn request_of(
    start: StartLineModel,
    headers: Map<Seq<char>, Seq<char>>,
    content: Option<Seq<char>>,
) -> RequestModel {
    RequestModel {
        start,
        path: target_path(start.target),
        query: query_params(target_query(start.target)),
        headers,
        route_key: route_key_of(start.method, target_path(start.target), start.version),
        content,
    }
}

/// How a request reads from the bytes of a connection. No bytes at all is
/// `NoStartLine`. The first line is the start line. The header lines follow
/// up to a blank line or the end of the bytes. A line that is not UTF-8 is
/// a `ReadError`. With a `Content-Length` header, that many bytes after the
/// header block are the body: a value that is no `usize` is
/// `InvalidContentLength`, too few bytes or a body that is not UTF-8 a
/// `ReadError`. An empty body counts as none.
pub open spec fn read_request(b: Seq<u8>) -> Result<RequestModel, ParseError> {
    if b.len() == 0 {
        Err(ParseError::NoStartLine)
    } else {
        let (first, next) = line_at(b, 0);
        if !valid_utf8(first) {
            Err(ParseError::ReadError)
        } else {
            match read_start_line(decode_utf8(first)) {
                Err(e) => Err(e),
                Ok(start) => {
                    let (lines, body_at) = header_block(b, next);
                    if !all_utf8(lines) {
                        Err(ParseError::ReadError)
                    } else {
                        let headers = header_map(decode_all(lines));
                        if !headers.contains_key("Content-Length"@) {
                            Ok(request_of(start, headers, None))
                        } else {
                            match parse_usize(headers["Content-Length"@]) {
                                None => Err(ParseError::InvalidContentLength),
                                Some(n) => {
                                    let body = b.subrange(body_at, body_at + n);
                                    if body_at + n > b.len() || !valid_utf8(body) {
                                        Err(ParseError::ReadError)
                                    } else if n == 0 {
                                        Ok(request_of(start, headers, None))
                                    } else {
                                        Ok(request_of(start, headers, Some(decode_utf8(body))))
                                    }
                                },
                            }
                        }
                    }
                },
            }
        }
    }
}

/// A blank first line is no request: it names no method.
pub proof fn lemma_blank_first_line()
    ensures
        read_request(seq![13u8, 10u8]) == Err::<RequestModel, ParseError>(ParseError::NoMethod),
{
    let b = seq![13u8, 10u8];
    assert(line_from(b, 1, seq![13u8]) == (Seq::<u8>::empty(), 2int)) by {
        assert(seq![13u8].drop_last() =~= Seq::<u8>::empty());
    }
    assert(line_at(b, 0) == (Seq::<u8>::empty(), 2int)) by {
        assert(Seq::<u8>::empty().push(13u8) =~= seq![13u8]);
    }
    assert(decode_utf8(Seq::<u8>::empty()) =~= Seq::<char>::empty());
    assert(words(Seq::<char>::empty()) =~= Seq::<Seq<char>>::empty());
}

/// A line without `\n`, sent as UTF-8 and ended by `\r\n`, is the first
/// line read, whatever follows it.
pub proof fn lemma_first_line(line: Seq<char>, rest: Seq<u8>)
    requires
        forall|i: int| 0 <= i < line.len() ==> #[trigger] line[i] != '\n',
    ensures
        line_at(encode_utf8(line) + seq![13u8, 10u8] + rest, 0) == (
            encode_utf8(line),
            encode_utf8(line).len() as int + 2,
        ),
        valid_utf8(encode_utf8(line)),
        decode_utf8(encode_utf8(line)) == line,
{
    broadcast use vstd::utf8::group_utf8_lib;

    lemma_encode_no_newline(line);
    let bl = encode_utf8(line);
    let b = bl + seq![13u8, 10u8] + rest;
    let n = bl.len() as int;
    assert forall|k: int| 0 <= k < n implies #[trigger] b[k] != 10u8 by {
        assert(b[k] == bl[k]);
    }
    lemma_line_from_run(b, 0, n, Seq::empty());
    assert(Seq::<u8>::empty() + b.subrange(0, n) =~= bl);
    assert(b[n] == 13u8);
    assert(b[n + 1] == 10u8);
    assert(bl.push(13u8).drop_last() =~= bl);
    assert(strip_cr(bl.push(13u8)) == bl);
    assert(line_from(b, n + 1, bl.push(13u8)) == (bl, n + 2));
    assert(line_from(b, n, bl) == line_from(b, n + 1, bl.push(13u8)));
}

/// A line without `\n` followed by a blank line reads as its start line,
/// with no headers and no body.
pub proof fn lemma_single_line_request(line: Seq<char>)
    requires
        forall|i: int| 0 <= i < line.len() ==> #[trigger] line[i] != '\n',
    ensures
        read_request(encode_utf8(line) + seq![13u8, 10u8] + seq![13u8, 10u8]) == match read_start_line(line) {
            Ok(start) => Ok(request_of(start, Map::empty(), None)),
            Err(e) => Err(e),
        },
{
    let rest = seq![13u8, 10u8];
    lemma_first_line(line, rest);
    let bl = encode_utf8(line);
    let b = bl + seq![13u8, 10u8] + rest;
    let n = bl.len() as int;
    assert(b[n + 2] == 13u8);
    assert(b[n + 3] == 10u8);
    assert(b.len() == n + 4);
    assert(line_from(b, n + 3, seq![13u8]) == (Seq::<u8>::empty(), n + 4)) by {
        assert(seq![13u8].drop_last() =~= Seq::<u8>::empty());
    }
    assert(Seq::<u8>::empty().push(13u8) =~= seq![13u8]);
    assert(header_block(b, n + 2) == (Seq::<Seq<u8>>::empty(), n + 4));
    assert(decode_all(Seq::<Seq<u8>>::empty()) =~= Seq::<Seq<char>>::empty());
    assert(header_map(decode_all(Seq::<Seq<u8>>::empty())) == Map::<Seq<char>, Seq<char>>::empty());
}

/// The bytes of `METHOD path?k1=v1&k2=v2 VERSION`, a blank line after it,
/// read as a request whose target is `path?k1=v1&k2=v2`, whose path is
/// exactly `path`, whose query holds both parameters (the leftmost value
/// when `k1` and `k2` are the same key) and whose route key is
/// `METHOD path VERSION`.
pub proof fn lemma_request_path_and_query(
    m: Method,
    path: Seq<char>,
    k1: Seq<char>,
    v1: Seq<char>,
    k2: Seq<char>,
    v2: Seq<char>,
    version: Seq<char>,
)
    requires
        path.len() > 0,
        no_ws(path) && no_ws(k1) && no_ws(v1) && no_ws(k2) && no_ws(v2) && no_ws(version),
        version.len() > 0,
        lacks(path, '?'),
        lacks(k1, '=') && lacks(k1, '&') && lacks(v1, '&'),
        lacks(k2, '=') && lacks(k2, '&') && lacks(v2, '&'),
    ensures
        ({
            let target = path + "?"@ + k1 + "="@ + v1 + "&"@ + k2 + "="@ + v2;
            let line = method_name(m) + " "@ + target + " "@ + version;
            let b = encode_utf8(line) + seq![13u8, 10u8] + seq![13u8, 10u8];
            let req = read_request(b)->Ok_0;
            &&& read_request(b) is Ok
            &&& req.start.method == m
            &&& req.start.target == target
            &&& req.start.version == version
            &&& req.path == path
            &&& req.query.contains_key(k1)
            &&& req.query[k1] == v1
            &&& req.query.contains_key(k2)
            &&& req.query[k2] == (if k1 == k2 {
                v1
            } else {
                v2
            })
            &&& req.route_key == Some(method_name(m) + " "@ + path + " "@ + version)
            &&& req.content is None
        }),
{
    reveal_strlit(" ");
    lemma_start_line_path_and_query(m, path, k1, v1, k2, v2, version);
    let target = path + "?"@ + k1 + "="@ + v1 + "&"@ + k2 + "="@ + v2;
    let line = method_name(m) + " "@ + target + " "@ + version;
    reveal_strlit("GET");
    reveal_strlit("POST");
    reveal_strlit("PATCH");
    reveal_strlit("DELETE");
    let name = method_name(m);
    assert(no_ws(name));
    assert forall|i: int| 0 <= i < line.len() implies #[trigger] line[i] != '\n' by {
        let a = name.len() as int;
        let c = a + 1 + target.len();
        if a < i && i < c {
            assert(line[i] == target[i - a - 1]);
            assert(!is_ws(target[i - a - 1]));
        } else if i > c {
            assert(line[i] == version[i - c - 1]);
            assert(!is_ws(version[i - c - 1]));
        } else if i < a {
            assert(line[i] == name[i]);
            assert(!is_ws(name[i]));
        }
    }
    lemma_single_line_request(line);
}

/// A start line `METHOD path?k1=v1&k2=v2 VERSION` reads back its method,
/// target and version, and the target splits into exactly that path and a
/// query holding both parameters; when `k1` and `k2` are the same key, the
/// leftmost value is kept.
pub proof fn lemma_start_line_path_and_query(
    m: Method,
    path: Seq<char>,
    k1: Seq<char>,
    v1: Seq<char>,
    k2: Seq<char>,
    v2: Seq<char>,
    version: Seq<char>,
)
    requires
        no_ws(path) && no_ws(k1) && no_ws(v1) && no_ws(k2) && no_ws(v2) && no_ws(version),
        version.len() > 0,
        lacks(path, '?'),
        lacks(k1, '=') && lacks(k1, '&') && lacks(v1, '&'),
        lacks(k2, '=') && lacks(k2, '&') && lacks(v2, '&'),
    ensures
        ({
            let target = path + "?"@ + k1 + "="@ + v1 + "&"@ + k2 + "="@ + v2;
            let line = method_name(m) + " "@ + target + " "@ + version;
            let start = read_start_line(line)->Ok_0;
            &&& no_ws(target)
            &&& read_start_line(line) is Ok
            &&& start.method == m
            &&& start.target == target
            &&& start.version == version
            &&& target_path(start.target) == path
            &&& query_params(target_query(start.target)).contains_key(k1)
            &&& query_params(target_query(start.target))[k1] == v1
            &&& query_params(target_query(start.target)).contains_key(k2)
            &&& query_params(target_query(start.target))[k2] == (if k1 == k2 {
                v1
            } else {
                v2
            })
        }),
{
    reveal_strlit("?");
    reveal_strlit("=");
    reveal_strlit("&");
    reveal_strlit("GET");
    reveal_strlit("POST");
    reveal_strlit("PATCH");
    reveal_strlit("DELETE");
    let target = path + "?"@ + k1 + "="@ + v1 + "&"@ + k2 + "="@ + v2;
    let name = method_name(m);
    assert(no_ws(name));
    assert forall|i: int| 0 <= i < target.len() implies !is_ws(#[trigger] target[i]) by {
        let a = path.len() as int;
        let b = a + 1 + k1.len();
        let c = b + 1 + v1.len();
        let d = c + 1 + k2.len();
        let e = d + 1 + v2.len();
        if i < a {
            assert(target[i] == path[i]);
        } else if i == a {
            assert(target[i] == '?');
        } else if i < b {
            assert(target[i] == k1[i - a - 1]);
        } else if i == b {
            assert(target[i] == '=');
        } else if i < c {
            assert(target[i] == v1[i - b - 1]);
        } else if i == c {
            assert(target[i] == '&');
        } else if i < d {
            assert(target[i] == k2[i - c - 1]);
        } else if i == d {
            assert(target[i] == '=');
        } else {
            assert(target[i] == v2[i - d - 1]);
        }
    }
    lemma_three_words(name, target, version);
    crate::method::lemma_method_name_injective(m, m);
    lemma_target_round_trip(path, k1, v1, k2, v2);
}

/// Where the blank line that ends the header lines from `b[i]` on is
/// followed by the body; none when the bytes end first.
pub open spec fn blank_line_end(b: Seq<u8>, i: int) -> Option<int>
    decreases b.len() - i,
{
    if i < 0 || i >= b.len() {
        None
    } else {
        let (l, next) = line_at(b, i);
        if l.len() == 0 {
            Some(next)
        } else {
            proof {
                lemma_line_from_advances(b, i, Seq::empty());
            }
            blank_line_end(b, next)
        }
    }
}

/// The body length that the headers of a request announce; zero when they
/// announce none that reads as a number.
pub open spec fn announced_len(b: Seq<u8>) -> nat {
    let lines = header_block(b, line_at(b, 0).1).0;
    let headers = header_map(decode_all(lines));
    if b.len() > 0 && all_utf8(lines) && headers.contains_key("Content-Length"@) && parse_usize(
        headers["Content-Length"@],
    ) is Some {
        parse_usize(headers["Content-Length"@])->Some_0
    } else {
        0
    }
}

/// How many bytes the request at the start of `b` takes: none while its
/// header block is not complete, else the header block and the announced
/// body, capped at `usize::MAX`.
pub open spec fn frame_len(b: Seq<u8>) -> Option<int> {
    if b.len() == 0 {
        None
    } else {
        match blank_line_end(b, line_at(b, 0).1) {
            None => None,
            Some(end) => Some(
                if end + announced_len(b) > usize::MAX {
                    usize::MAX as int
                } else {
                    end + announced_len(b)
                },
            ),
        }
    }
}

proof fn lemma_blank_line_end_is_body_start(b: Seq<u8>, i: int)
    requires
        0 <= i,
        blank_line_end(b, i) is Some,
    ensures
        header_block(b, i).1 == blank_line_end(b, i)->Some_0,
    decreases b.len() - i,
{
    if i < b.len() {
        let (l, next) = line_at(b, i);
        if l.len() > 0 {
            lemma_line_from_advances(b, i, Seq::empty());
            lemma_blank_line_end_is_body_start(b, next);
        }
    }
}

/// Reads the line that starts at `input[pos]`.
fn read_line(input: &[u8], pos: usize) -> (r: (Vec<u8>, usize))
    requires
        pos < input@.len(),
    ensures
        r.0@ == line_at(input@, pos as int).0,
        r.1 as int == line_at(input@, pos as int).1,
{
    let n = input.len();
    let mut cur: Vec<u8> = Vec::new();
    let mut i = pos;
    while i < n
        invariant
            n == input@.len(),
            pos <= i <= n,
            line_at(input@, pos as int) == line_from(input@, i as int, cur@),
        decreases n - i,
    {
        if input[i] == 10u8 {
            let len = cur.len();
            if len > 0 && cur[len - 1] == 13u8 {
                cur.pop();
            }
            return (cur, i + 1);
        }
        cur.push(input[i]);
        i = i + 1;
    }
    (cur, n)
}

/// Splits a header line at its first `": "`.
fn split_header(line: &str) -> (r: Option<(String, String)>)
    ensures
        r is Some <==> header_entry(line@) is Some,
        r is Some ==> r->Some_0.0@ == header_entry(line@)->Some_0.0 && r->Some_0.1@
            == header_entry(line@)->Some_0.1,
{
    let cs = chars_of(line);
    let n = cs.len();
    if n == 0 {
        return None;
    }
    let mut i: usize = 0;
    while i < n - 1
        invariant
            n == cs@.len(),
            n > 0,
            cs@ == line@,
            separator_index(line@, 0) == separator_index(line@, i as int),
        decreases n - i,
    {
        if cs[i] == ':' && cs[i + 1] == ' ' {
            return Some((crate::text::string_of(&cs, 0, i), crate::text::string_of(&cs, i + 2, n)));
        }
        i = i + 1;
    }
    None
}

#[derive(Debug)]
pub struct Request {
    start_line: StartLine,
    path_and_query: PathAndQuery,
    headers: TextMap,
    route_key: Option<String>,
    content: Option<String>,
}

/// The text of an optional string.
pub open spec fn opt_view(o: Option<String>) -> Option<Seq<char>> {
    match o {
        Some(s) => Some(s@),
        None => None,
    }
}

impl View for Request {
    type V = RequestModel;

    closed spec fn view(&self) -> RequestModel {
        RequestModel {
            start: self.start_line@,
            path: self.path_and_query@.path,
            query: self.path_and_query@.query,
            headers: self.headers@,
            route_key: opt_view(self.route_key),
            content: opt_view(self.content),
        }
    }
}

/// The key a request is looked up by: its route key, or its raw start line
/// when it has none.
pub open spec fn lookup_key(r: RequestModel) -> Seq<char> {
    match r.route_key {
        Some(k) => k,
        None => r.start.line,
    }
}

impl Request {
    /// The query and header maps are well formed.
    pub closed spec fn wf(&self) -> bool {
        self.path_and_query.wf() && self.headers.wf()
    }

    /// Reads the header block that starts at `input[pos]`; gives the headers
    /// and where the body starts.
    fn parse_headers(input: &[u8], pos: usize) -> (r: Result<(TextMap, usize), ParseError>)
        requires
            pos <= input@.len(),
        ensures
            r is Ok <==> all_utf8(header_block(input@, pos as int).0),
            r is Err ==> r->Err_0 == ParseError::ReadError,
            r is Ok ==> r->Ok_0.0.wf() && r->Ok_0.0@ == header_map(
                decode_all(header_block(input@, pos as int).0),
            ) && r->Ok_0.1 as int == header_block(input@, pos as int).1,
            r is Ok ==> r->Ok_0.1 <= input@.len(),
    {
        let n = input.len();
        let mut headers = TextMap::new();
        let mut at = pos;
        let ghost mut done: Seq<Seq<u8>> = Seq::empty();
        loop
            invariant
                n == input@.len(),
                pos <= at <= n,
                headers.wf(),
                all_utf8(done),
                headers@ == header_map(decode_all(done)),
                header_block(input@, pos as int).0 == done + header_block(input@, at as int).0,
                header_block(input@, pos as int).1 == header_block(input@, at as int).1,
            decreases n - at,
        {
            if at >= n {
                assert(header_block(input@, at as int).0 =~= Seq::<Seq<u8>>::empty());
                assert(done + Seq::<Seq<u8>>::empty() =~= done);
                return Ok((headers, n));
            }
            let (line, next) = read_line(input, at);
            proof {
                lemma_line_from_advances(input@, at as int, Seq::empty());
            }
            if line.len() == 0 {
                assert(done + Seq::<Seq<u8>>::empty() =~= done);
                return Ok((headers, next));
            }
            let ghost rest = header_block(input@, next as int);
            assert(header_block(input@, at as int).0 == seq![line@] + rest.0);
            let text = match decode_utf8_bytes(line.as_slice()) {
                Some(t) => t,
                None => {
                    assert(header_block(input@, pos as int).0[done.len() as int] == line@);
                    return Err(ParseError::ReadError);
                },
            };
            let ghost before = done;
            proof {
                done = done.push(line@);
                assert(done + rest.0 =~= before + (seq![line@] + rest.0));
                assert(decode_all(done).drop_last() =~= decode_all(before));
                assert(decode_all(done).last() == text@);
            }
            match split_header(text.as_str()) {
                Some((k, v)) => headers.insert(k, v),
                None => {},
            }
            at = next;
        }
    }

    /// Where the blank line ending the header block from `input[pos]` on is
    /// followed by the body; none when the bytes end first.
    fn find_blank_line(input: &[u8], pos: usize) -> (r: Option<usize>)
        requires
            pos <= input@.len(),
        ensures
            r is Some <==> blank_line_end(input@, pos as int) is Some,
            r is Some ==> r->Some_0 as int == blank_line_end(input@, pos as int)->Some_0,
    {
        let n = input.len();
        let mut at = pos;
        while at < n
            invariant
                n == input@.len(),
                pos <= at <= n,
                blank_line_end(input@, pos as int) == blank_line_end(input@, at as int),
            decreases n - at,
        {
            let (line, next) = read_line(input, at);
            proof {
                lemma_line_from_advances(input@, at as int, Seq::empty());
            }
            if line.len() == 0 {
                return Some(next);
            }
            at = next;
        }
        None
    }

    /// How many bytes of `input` the request at its start takes, as
    /// `frame_len` says; none while its header block is incomplete. A reader
    /// of a connection reads on until it holds that many bytes or the
    /// connection ends, then parses what it holds.
    pub fn frame_len(input: &[u8]) -> (r: Option<usize>)
        ensures
            r is Some <==> frame_len(input@) is Some,
            r is Some ==> r->Some_0 as int == frame_len(input@)->Some_0,
    {
        let n = input.len();
        if n == 0 {
            return None;
        }
        let (_first, next) = read_line(input, 0);
        proof {
            lemma_line_from_advances(input@, 0, Seq::empty());
        }
        let end = match Request::find_blank_line(input, next) {
            None => return None,
            Some(e) => e,
        };
        proof {
            lemma_blank_line_end_is_body_start(input@, next as int);
        }
        let announced: usize = match Request::parse_headers(input, next) {
            Err(_) => 0,
            Ok((headers, _)) => match headers.get("Content-Length") {
                None => 0,
                Some(v) => match parse_decimal(v.as_str()) {
                    None => 0,
                    Some(l) => l,
                },
            },
        };
        if announced > usize::MAX - end {
            Some(usize::MAX)
        } else {
            Some(end + announced)
        }
    }

    /// The key a request with this method, path and version is dispatched
    /// by; none when the path is empty.
    pub fn construct_route_key(method: &Method, path: &str, version: &String) -> (r: Option<
        String,
    >)
        ensures
            opt_view(r) == route_key_of(*method, path@, version@),
    {
        if path.unicode_len() == 0 {
            return None;
        }
        let mut key = String::new();
        key.append(method.to_str());
        key.append(" ");
        key.append(path);
        key.append(" ");
        key.append(version.as_str());
        Some(key)
    }

    /// Reads a request from the bytes a client sent, as `read_request`
    /// describes. Bytes after the body are left unread.
    pub fn from_bytes(input: &[u8]) -> (r: Result<Request, ParseError>)
        ensures
            r is Ok <==> read_request(input@) is Ok,
            r is Ok ==> r->Ok_0.wf() && r->Ok_0@ == read_request(input@)->Ok_0,
            r is Err ==> r->Err_0 == read_request(input@)->Err_0,
    {
        let n = input.len();
        if n == 0 {
            return Err(ParseError::NoStartLine);
        }
        let (first, next) = read_line(input, 0);
        proof {
            lemma_line_from_advances(input@, 0, Seq::empty());
        }
        let first_text = match decode_utf8_bytes(first.as_slice()) {
            Some(t) => t,
            None => return Err(ParseError::ReadError),
        };
        let start_line = match StartLine::from_line(first_text.as_str()) {
            Ok(s) => s,
            Err(e) => return Err(e),
        };
        let (headers, body_at) = match Request::parse_headers(input, next) {
            Ok(h) => h,
            Err(e) => return Err(e),
        };
        let content = match headers.get("Content-Length") {
            None => None,
            Some(length) => {
                let length = match parse_decimal(length.as_str()) {
                    Some(l) => l,
                    None => return Err(ParseError::InvalidContentLength),
                };
                if length > n - body_at {
                    return Err(ParseError::ReadError);
                }
                let body = slice_subrange(input, body_at, body_at + length);
                match decode_utf8_bytes(body) {
                    None => return Err(ParseError::ReadError),
                    Some(data) => {
                        if length == 0 {
                            None
                        } else {
                            Some(data)
                        }
                    },
                }
            },
        };
        let path_and_query = PathAndQuery::from_target(start_line.target().as_str());
        let route_key = Request::construct_route_key(
            start_line.method(),
            path_and_query.path().as_str(),
            start_line.version(),
        );
        Ok(Request { start_line, path_and_query, headers, route_key, content })
    }

    /// The key this request is dispatched by.
    pub fn get_route_key(&self) -> (r: &String)
        ensures
            r@ == lookup_key(self@),
    {
        match &self.route_key {
            Some(key) => key,
            None => self.start_line.line(),
        }
    }

    pub fn start_line(&self) -> (r: &String)
        ensures
            r@ == self@.start.line,
    {
        self.start_line.line()
    }

    pub fn method(&self) -> (r: &Method)
        ensures
            *r == self@.start.method,
    {
        self.start_line.method()
    }

    pub fn target(&self) -> (r: &String)
        ensures
            r@ == self@.start.target,
    {
        self.start_line.target()
    }

    pub fn version(&self) -> (r: &String)
        ensures
            r@ == self@.start.version,
    {
        self.start_line.version()
    }

    pub fn path(&self) -> (r: &String)
        ensures
            r@ == self@.path,
    {
        self.path_and_query.path()
    }

    pub fn headers(&self) -> (r: &TextMap)
        requires
            self.wf(),
        ensures
            r.wf(),
            r@ == self@.headers,
    {
        &self.headers
    }

    pub fn query(&self) -> (r: &TextMap)
        requires
            self.wf(),
        ensures
            r.wf(),
            r@ == self@.query,
    {
        self.path_and_query.query()
    }

    pub fn content(&self) -> (r: &Option<String>)
        ensures
            opt_view(*r) == self@.content,
    {
        &self.content
    }
}

} // verus!
