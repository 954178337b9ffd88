//! The first line of a request: method, target and version.
use vstd::prelude::*;

use crate::method::{method_name, method_of, Method};
use crate::request::ParseError;
use crate::text::{is_whitespace, is_ws, push_char};

verus! {

/// The whitespace-separated words of `s[i..]`, where `cur` is the part of a
/// word already read; as `str::split_whitespace` yields them.
pub open spec fn words_from(s: Seq<char>, i: int, cur: Seq<char>) -> Seq<Seq<char>>
    decreases s.len() - i,
{
    let done = if cur.len() > 0 {
        seq![cur]
    } else {
        Seq::empty()
    };
    if i >= s.len() || i < 0 {
        done
    } else if is_ws(s[i]) {
        done + words_from(s, i + 1, Seq::empty())
    } else {
        words_from(s, i + 1, cur.push(s[i]))
    }
}

/// The whitespace-separated words of `s`.
pub open spec fn words(s: Seq<char>) -> Seq<Seq<char>> {
    words_from(s, 0, Seq::empty())
}

/// A text with no whitespace in it.
pub open spec fn no_ws(s: Seq<char>) -> bool {
    forall|i: int| 0 <= i < s.len() ==> !is_ws(#[trigger] s[i])
}

/// Reading over a run of non-whitespace adds it to the current word.
pub proof fn lemma_words_run(s: Seq<char>, i: int, j: int, cur: Seq<char>)
    requires
        0 <= i <= j <= s.len(),
        forall|k: int| i <= k < j ==> !is_ws(#[trigger] s[k]),
    ensures
        words_from(s, i, cur) == words_from(s, j, cur + s.subrange(i, j)),
    decreases j - i,
{
    if i < j {
        lemma_words_run(s, i + 1, j, cur.push(s[i]));
        assert(cur.push(s[i]) + s.subrange(i + 1, j) =~= cur + s.subrange(i, j));
    } else {
        assert(cur + s.subrange(i, j) =~= cur);
    }
}

/// The three words of `a b c`, for words `a`, `b`, `c` with no whitespace.
pub proof fn lemma_three_words(a: Seq<char>, b: Seq<char>, c: Seq<char>)
    requires
        a.len() > 0 && b.len() > 0 && c.len() > 0,
        no_ws(a) && no_ws(b) && no_ws(c),
    ensures
        words(a + " "@ + b + " "@ + c) == seq![a, b, c],
{
    reveal_strlit(" ");
    let s = a + " "@ + b + " "@ + c;
    let e = Seq::<char>::empty();
    let i1 = a.len() as int;
    let i2 = i1 + 1 + b.len();
    let n = s.len() as int;
    assert forall|k: int| 0 <= k < i1 implies !is_ws(#[trigger] s[k]) by {
        assert(s[k] == a[k]);
    }
    lemma_words_run(s, 0, i1, e);
    assert(e + s.subrange(0, i1) =~= a);
    assert(s[i1] == ' ');
    assert(words_from(s, i1, a) == seq![a] + words_from(s, i1 + 1, e));
    assert forall|k: int| i1 + 1 <= k < i2 implies !is_ws(#[trigger] s[k]) by {
        assert(s[k] == b[k - i1 - 1]);
    }
    lemma_words_run(s, i1 + 1, i2, e);
    assert(e + s.subrange(i1 + 1, i2) =~= b);
    assert(s[i2] == ' ');
    assert(words_from(s, i2, b) == seq![b] + words_from(s, i2 + 1, e));
    assert forall|k: int| i2 + 1 <= k < n implies !is_ws(#[trigger] s[k]) by {
        assert(s[k] == c[k - i2 - 1]);
    }
    lemma_words_run(s, i2 + 1, n, e);
    assert(e + s.subrange(i2 + 1, n) =~= c);
    assert(words_from(s, n, c) == seq![c]);
    assert(seq![a] + (seq![b] + seq![c]) =~= seq![a, b, c]);
}

/// What a start line holds once read.
pub struct StartLineModel {
    pub line: Seq<char>,
    pub method: Method,
    pub target: Seq<char>,
    pub version: Seq<char>,
}

/// How a start line reads: its first three words are the method, the
/// target and the version; later words are ignored.
pub open spec fn read_start_line(line: Seq<char>) -> Result<StartLineModel, ParseError> {
    let w = words(line);
    if w.len() == 0 {
        Err(ParseError::NoMethod)
    } else if method_of(w[0]) is None {
        Err(ParseError::InvalidMethod)
    } else if w.len() < 2 {
        Err(ParseError::NoTarget)
    } else if w.len() < 3 {
        Err(ParseError::NoVersion)
    } else {
        Ok(StartLineModel { line, method: method_of(w[0])->Some_0, target: w[1], version: w[2] })
    }
}

/// The words of a line, in order.
pub fn split_words(line: &Vec<char>) -> (r: Vec<String>)
    ensures
        r@.map_values(|w: String| w@) == words(line@),
{
    let n = line.len();
    let mut out: Vec<String> = Vec::new();
    let mut cur = String::new();
    let mut i: usize = 0;
    while i < n
        invariant
            n == line@.len(),
            i <= n,
            words(line@) == out@.map_values(|w: String| w@) + words_from(line@, i as int, cur@),
        decreases n - i,
    {
        let c = line[i];
        if is_whitespace(c) {
            if cur.as_str().unicode_len() > 0 {
                let ghost before = out@.map_values(|w: String| w@);
                let ghost word = cur@;
                out.push(cur);
                cur = String::new();
                assert(out@.map_values(|w: String| w@) =~= before + seq![word]);
                assert(words_from(line@, i as int, word) =~= seq![word] + words_from(line@, i + 1, Seq::empty()));
                assert(before + words_from(line@, i as int, word) =~= (before + seq![word]) + words_from(line@, i + 1, Seq::empty()));
            } else {
                assert(cur@ =~= Seq::<char>::empty());
                assert(words_from(line@, i as int, cur@) =~= words_from(line@, i + 1, Seq::empty()));
            }
        } else {
            let ghost old_cur = cur@;
            push_char(&mut cur, c);
            assert(words_from(line@, i as int, old_cur) == words_from(line@, i + 1, cur@));
        }
        i = i + 1;
    }
    if cur.as_str().unicode_len() > 0 {
        let ghost before = out@.map_values(|w: String| w@);
        let ghost word = cur@;
        out.push(cur);
        assert(out@.map_values(|w: String| w@) =~= before + seq![word]);
    } else {
        assert(words_from(line@, n as int, cur@) =~= Seq::<Seq<char>>::empty());
    }
    assert(words(line@) =~= out@.map_values(|w: String| w@));
    out
}

#[derive(Debug)]
pub struct StartLine {
    line: String,
    method: Method,
    target: String,
    version: String,
}

impl View for StartLine {
    type V = StartLineModel;

    closed spec fn view(&self) -> StartLineModel {
        StartLineModel {
            line: self.line@,
            method: self.method,
            target: self.target@,
            version: self.version@,
        }
    }
}

impl StartLine {
    /// A start line made of its parts, separated by single spaces.
    pub fn new(method: Method, target: &str, version: &str) -> (r: StartLine)
        ensures
            r@.line == method_name(method) + " "@ + target@ + " "@ + version@,
            r@.method == method,
            r@.target == target@,
            r@.version == version@,
    {
        let mut line = String::new();
        line.append(method.to_str());
        line.append(" ");
        line.append(target);
        line.append(" ");
        line.append(version);
        StartLine { line, method, target: target.to_owned(), version: version.to_owned() }
    }

    /// Reads a start line, as `read_start_line` describes.
    pub fn from_line(line: &str) -> (r: Result<StartLine, ParseError>)
        ensures
            r is Ok <==> read_start_line(line@) is Ok,
            r is Ok ==> r->Ok_0@ == read_start_line(line@)->Ok_0,
            r is Err ==> r->Err_0 == read_start_line(line@)->Err_0,
    {
        let cs = crate::text::chars_of(line);
        let w = split_words(&cs);
        let ghost ws = words(line@);
        assert(w@.len() == ws.len());
        if w.len() == 0 {
            return Err(ParseError::NoMethod);
        }
        assert(w@[0]@ == ws[0]);
        let method = match Method::parse(w[0].as_str()) {
            Ok(m) => m,
            Err(e) => return Err(e),
        };
        if w.len() < 2 {
            return Err(ParseError::NoTarget);
        }
        if w.len() < 3 {
            return Err(ParseError::NoVersion);
        }
        assert(w@[1]@ == ws[1]);
        assert(w@[2]@ == ws[2]);
        let target = w[1].clone();
        let version = w[2].clone();
        Ok(StartLine { line: line.to_owned(), method, target, version })
    }

    /// Reads a start line; the same as `from_line`.
    pub fn from_request(line: &str) -> (r: Result<StartLine, ParseError>)
        ensures
            r is Ok <==> read_start_line(line@) is Ok,
            r is Ok ==> r->Ok_0@ == read_start_line(line@)->Ok_0,
            r is Err ==> r->Err_0 == read_start_line(line@)->Err_0,
    {
        StartLine::from_line(line)
    }

    pub fn line(&self) -> (r: &String)
        ensures
            r@ == self@.line,
    {
        &self.line
    }

    pub fn method(&self) -> (r: &Method)
        ensures
            *r == self@.method,
    {
        &self.method
    }

    pub fn target(&self) -> (r: &String)
        ensures
            r@ == self@.target,
    {
        &self.target
    }

    pub fn version(&self) -> (r: &String)
        ensures
            r@ == self@.version,
    {
        &self.version
    }
}

impl Default for StartLine {
    fn default() -> (r: StartLine)
        ensures
            r@.line == "GET / HTTP/1.1"@,
            r@.method == Method::GET,
            r@.target == "/"@,
            r@.version == "HTTP/1.1"@,
    {
        StartLine {
            line: "GET / HTTP/1.1".to_owned(),
            method: Method::GET,
            target: "/".to_owned(),
            version: "HTTP/1.1".to_owned(),
        }
    }
}

} // verus!
