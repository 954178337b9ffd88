//! Splitting a request target into its path and its query parameters.
use vstd::prelude::*;

use crate::text::{push_char, string_of};
use crate::text_map::TextMap;

verus! {

/// The first position at or after `i` that holds `c`, or the length.
pub open spec fn char_index(s: Seq<char>, c: char, i: int) -> int
    decreases s.len() - i,
{
    if i < 0 || i >= s.len() {
        s.len() as int
    } else if s[i] == c {
        i
    } else {
        char_index(s, c, i + 1)
    }
}

/// The text before and after the first `c`, as `str::split_once` gives them.
pub open spec fn split_once(s: Seq<char>, c: char) -> Option<(Seq<char>, Seq<char>)> {
    let j = char_index(s, c, 0);
    if j < s.len() {
        Some((s.subrange(0, j), s.subrange(j + 1, s.len() as int)))
    } else {
        None
    }
}

/// The pieces of `s[i..]` between occurrences of `c`, where `cur` is the
/// part of a piece already read; as `str::split` yields them.
pub open spec fn pieces_from(s: Seq<char>, c: char, i: int, cur: Seq<char>) -> Seq<Seq<char>>
    decreases s.len() - i,
{
    if i < 0 || i >= s.len() {
        seq![cur]
    } else if s[i] == c {
        seq![cur] + pieces_from(s, c, i + 1, Seq::empty())
    } else {
        pieces_from(s, c, i + 1, cur.push(s[i]))
    }
}

/// The pieces of `s` between occurrences of `c`.
pub open spec fn pieces(s: Seq<char>, c: char) -> Seq<Seq<char>> {
    pieces_from(s, c, 0, Seq::empty())
}

/// The path of a target: all of it when it has no `?`, else what precedes
/// the first `?`.
pub open spec fn target_path(t: Seq<char>) -> Seq<char> {
    match split_once(t, '?') {
        Some(p) => p.0,
        None => t,
    }
}

/// The raw query of a target: what follows the first `?`, if any.
pub open spec fn target_query(t: Seq<char>) -> Seq<char> {
    match split_once(t, '?') {
        Some(p) => p.1,
        None => Seq::empty(),
    }
}

/// The parameters of `key=value` pieces. A piece without `=` is ignored, and
/// of two pieces with the same key the leftmost one wins.
pub open spec fn params(ps: Seq<Seq<char>>) -> Map<Seq<char>, Seq<char>>
    decreases ps.len(),
{
    if ps.len() == 0 {
        Map::empty()
    } else {
        let rest = params(ps.drop_first());
        match split_once(ps[0], '=') {
            Some(kv) => rest.insert(kv.0, kv.1),
            None => rest,
        }
    }
}

/// The query parameters of a raw query string.
pub open spec fn query_params(q: Seq<char>) -> Map<Seq<char>, Seq<char>> {
    params(pieces(q, '&'))
}

/// A text in which `c` does not occur.
pub open spec fn lacks(s: Seq<char>, c: char) -> bool {
    forall|i: int| 0 <= i < s.len() ==> #[trigger] s[i] != c
}

/// Searching from `i` passes over a stretch without `c`.
pub proof fn lemma_char_index_run(s: Seq<char>, c: char, i: int, j: int)
    requires
        0 <= i <= j <= s.len(),
        forall|k: int| i <= k < j ==> #[trigger] s[k] != c,
    ensures
        char_index(s, c, i) == char_index(s, c, j),
    decreases j - i,
{
    if i < j {
        lemma_char_index_run(s, c, i + 1, j);
    }
}

/// `a` followed by `c` and `b` splits at that `c` when `a` lacks it.
pub proof fn lemma_split_once_joined(a: Seq<char>, c: char, b: Seq<char>)
    requires
        lacks(a, c),
    ensures
        split_once(a + seq![c] + b, c) == Some((a, b)),
{
    let s = a + seq![c] + b;
    assert forall|k: int| 0 <= k < a.len() implies #[trigger] s[k] != c by {
        assert(s[k] == a[k]);
    }
    lemma_char_index_run(s, c, 0, a.len() as int);
    assert(s.subrange(0, a.len() as int) =~= a);
    assert(s.subrange(a.len() as int + 1, s.len() as int) =~= b);
}

/// Reading over a stretch without `c` adds it to the current piece.
pub proof fn lemma_pieces_run(s: Seq<char>, c: char, i: int, j: int, cur: Seq<char>)
    requires
        0 <= i <= j <= s.len(),
        forall|k: int| i <= k < j ==> #[trigger] s[k] != c,
    ensures
        pieces_from(s, c, i, cur) == pieces_from(s, c, j, cur + s.subrange(i, j)),
    decreases j - i,
{
    if i < j {
        lemma_pieces_run(s, c, i + 1, j, cur.push(s[i]));
        assert(cur.push(s[i]) + s.subrange(i + 1, j) =~= cur + s.subrange(i, j));
    } else {
        assert(cur + s.subrange(i, j) =~= cur);
    }
}

/// `a&b` splits into `a` and `b` when neither holds `&`.
pub proof fn lemma_two_pieces(a: Seq<char>, b: Seq<char>)
    requires
        lacks(a, '&') && lacks(b, '&'),
    ensures
        pieces(a + "&"@ + b, '&') == seq![a, b],
{
    reveal_strlit("&");
    let s = a + "&"@ + b;
    let e = Seq::<char>::empty();
    let i1 = a.len() as int;
    let n = s.len() as int;
    assert forall|k: int| 0 <= k < i1 implies #[trigger] s[k] != '&' by {
        assert(s[k] == a[k]);
    }
    lemma_pieces_run(s, '&', 0, i1, e);
    assert(e + s.subrange(0, i1) =~= a);
    assert(s[i1] == '&');
    assert forall|k: int| i1 + 1 <= k < n implies #[trigger] s[k] != '&' by {
        assert(s[k] == b[k - i1 - 1]);
    }
    lemma_pieces_run(s, '&', i1 + 1, n, e);
    assert(e + s.subrange(i1 + 1, n) =~= b);
    assert(seq![a] + seq![b] =~= seq![a, b]);
}

/// A target `path?k1=v1&k2=v2` splits into that path and a query holding
/// both parameters; when `k1` and `k2` are the same key, `v1`, the leftmost
/// value, is the one kept.
pub proof fn lemma_target_round_trip(
    path: Seq<char>,
    k1: Seq<char>,
    v1: Seq<char>,
    k2: Seq<char>,
    v2: Seq<char>,
)
    requires
        lacks(path, '?'),
        lacks(k1, '=') && lacks(k1, '&') && lacks(v1, '&'),
        lacks(k2, '=') && lacks(k2, '&') && lacks(v2, '&'),
    ensures
        ({
            let target = path + "?"@ + k1 + "="@ + v1 + "&"@ + k2 + "="@ + v2;
            &&& target_path(target) == path
            &&& query_params(target_query(target)) == Map::<Seq<char>, Seq<char>>::empty().insert(
                k2,
                v2,
            ).insert(k1, v1)
            &&& query_params(target_query(target)).contains_key(k1)
            &&& query_params(target_query(target))[k1] == v1
            &&& query_params(target_query(target)).contains_key(k2)
            &&& query_params(target_query(target))[k2] == (if k1 == k2 {
                v1
            } else {
                v2
            })
        }),
{
    reveal_strlit("?");
    reveal_strlit("=");
    reveal_strlit("&");
    let piece_a = k1 + "="@ + v1;
    let piece_b = k2 + "="@ + v2;
    let q = piece_a + "&"@ + piece_b;
    let target = path + "?"@ + k1 + "="@ + v1 + "&"@ + k2 + "="@ + v2;
    assert(target =~= path + seq!['?'] + q);
    lemma_split_once_joined(path, '?', q);
    assert forall|k: int| 0 <= k < piece_a.len() implies #[trigger] piece_a[k] != '&' by {
        if k < k1.len() {
            assert(piece_a[k] == k1[k]);
        } else if k > k1.len() {
            assert(piece_a[k] == v1[k - k1.len() - 1]);
        }
    }
    assert forall|k: int| 0 <= k < piece_b.len() implies #[trigger] piece_b[k] != '&' by {
        if k < k2.len() {
            assert(piece_b[k] == k2[k]);
        } else if k > k2.len() {
            assert(piece_b[k] == v2[k - k2.len() - 1]);
        }
    }
    lemma_two_pieces(piece_a, piece_b);
    assert(piece_a =~= k1 + seq!['='] + v1);
    assert(piece_b =~= k2 + seq!['='] + v2);
    lemma_split_once_joined(k1, '=', v1);
    lemma_split_once_joined(k2, '=', v2);
    let ps = seq![piece_a, piece_b];
    assert(ps.drop_first() =~= seq![piece_b]);
    assert(seq![piece_b].drop_first() =~= Seq::<Seq<char>>::empty());
    assert(target_path(target) == path);
    assert(target_query(target) == q);
    assert(pieces(q, '&') == ps);
    assert(params(Seq::<Seq<char>>::empty()) == Map::<Seq<char>, Seq<char>>::empty());
    assert(seq![piece_b][0] == piece_b);
    assert(ps[0] == piece_a);
    assert(params(seq![piece_b]) == Map::<Seq<char>, Seq<char>>::empty().insert(k2, v2));
    assert(params(ps) == Map::<Seq<char>, Seq<char>>::empty().insert(k2, v2).insert(k1, v1));
}

/// The position of the first `c` at or after `from`, or the length.
pub fn find_char(s: &Vec<char>, c: char, from: usize) -> (r: usize)
    requires
        from <= s@.len(),
    ensures
        r == char_index(s@, c, from as int),
{
    let n = s.len();
    let mut i = from;
    while i < n
        invariant
            n == s@.len(),
            from <= i <= n,
            char_index(s@, c, from as int) == char_index(s@, c, i as int),
        decreases n - i,
    {
        if s[i] == c {
            return i;
        }
        i = i + 1;
    }
    i
}

/// Splits `s` at the first `c`.
pub fn split_once_at(s: &Vec<char>, c: char) -> (r: Option<(String, String)>)
    ensures
        r is Some <==> split_once(s@, c) is Some,
        r is Some ==> r->Some_0.0@ == split_once(s@, c)->Some_0.0 && r->Some_0.1@ == split_once(
            s@,
            c,
        )->Some_0.1,
{
    let j = find_char(s, c, 0);
    if j < s.len() {
        Some((string_of(s, 0, j), string_of(s, j + 1, s.len())))
    } else {
        None
    }
}

/// The pieces of `s` between occurrences of `c`.
pub fn split_pieces(s: &Vec<char>, c: char) -> (r: Vec<String>)
    ensures
        r@.map_values(|w: String| w@) == pieces(s@, c),
{
    let n = s.len();
    let mut out: Vec<String> = Vec::new();
    let mut cur = String::new();
    let mut i: usize = 0;
    while i < n
        invariant
            n == s@.len(),
            i <= n,
            pieces(s@, c) == out@.map_values(|w: String| w@) + pieces_from(s@, c, i as int, cur@),
        decreases n - i,
    {
        let ghost before = out@.map_values(|w: String| w@);
        let ghost old_cur = cur@;
        if s[i] == c {
            out.push(cur);
            cur = String::new();
            assert(out@.map_values(|w: String| w@) =~= before + seq![old_cur]);
            assert(before + pieces_from(s@, c, i as int, old_cur) =~= (before + seq![old_cur])
                + pieces_from(s@, c, i + 1, Seq::empty()));
        } else {
            push_char(&mut cur, s[i]);
        }
        i = i + 1;
    }
    let ghost before = out@.map_values(|w: String| w@);
    let ghost last = cur@;
    out.push(cur);
    assert(out@.map_values(|w: String| w@) =~= before + seq![last]);
    out
}

/// What a target splits into.
pub struct PathAndQueryModel {
    pub path: Seq<char>,
    pub query: Map<Seq<char>, Seq<char>>,
}

#[derive(Debug)]
pub struct PathAndQuery {
    path: String,
    query: TextMap,
}

impl View for PathAndQuery {
    type V = PathAndQueryModel;

    closed spec fn view(&self) -> PathAndQueryModel {
        PathAndQueryModel { path: self.path@, query: self.query@ }
    }
}

impl PathAndQuery {
    /// The query map is well formed.
    pub closed spec fn wf(&self) -> bool {
        self.query.wf()
    }

    /// Splits a target at its first `?` and reads the query's parameters.
    pub fn from_target(target: &str) -> (r: PathAndQuery)
        ensures
            r.wf(),
            r@.path == target_path(target@),
            r@.query == query_params(target_query(target@)),
    {
        let cs = crate::text::chars_of(target);
        let (path, raw_query) = match split_once_at(&cs, '?') {
            Some(p) => p,
            None => (target.to_owned(), String::new()),
        };
        let qs = crate::text::chars_of(raw_query.as_str());
        let ps = split_pieces(&qs, '&');
        let ghost all = ps@.map_values(|w: String| w@);
        let mut query = TextMap::new();
        let mut i: usize = ps.len();
        assert(all.subrange(i as int, all.len() as int) =~= Seq::<Seq<char>>::empty());
        while i > 0
            invariant
                i <= ps@.len(),
                all == ps@.map_values(|w: String| w@),
                query.wf(),
                query@ == params(all.subrange(i as int, all.len() as int)),
            decreases i,
        {
            i = i - 1;
            let piece = crate::text::chars_of(ps[i].as_str());
            assert(all.subrange(i as int, all.len() as int).drop_first() =~= all.subrange(
                i + 1,
                all.len() as int,
            ));
            match split_once_at(&piece, '=') {
                Some((k, v)) => {
                    query.insert(k, v);
                },
                None => {},
            }
        }
        assert(all.subrange(0, all.len() as int) =~= all);
        PathAndQuery { path, query }
    }

    pub fn path(&self) -> (r: &String)
        ensures
            r@ == self@.path,
    {
        &self.path
    }

    pub fn query(&self) -> (r: &TextMap)
        requires
            self.wf(),
        ensures
            r.wf(),
            r@ == self@.query,
    {
        &self.query
    }
}

} // verus!
