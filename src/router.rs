//! The route table: handlers registered by method and path, staged until
//! the table is built, then looked up by route key.
use vstd::prelude::*;

use crate::method::{method_name, Method};
use crate::request::Request;
use crate::response::Response;
use crate::text::same_text;
use crate::text_map::{keys_unique, lemma_key_index, lemma_map_of_at, lemma_map_of_has, lemma_put, map_of, put};

verus! {

/// The key a route registered with `method` and `path` is stored under.
/// Registration always names version `HTTP/1.1`, so a request line that
/// names another version matches no route.
pub open spec fn registration_key(method: Method, path: Seq<char>) -> Seq<char> {
    method_name(method) + " "@ + path + " "@ + "HTTP/1.1"@
}

/// A handler that accepts every request.
pub open spec fn total<H: Fn(Request) -> Response>(h: H) -> bool {
    forall|r: Request| #[trigger] call_requires(h, (r,))
}

/// The table after the staged routes are moved into it, the last staged one
/// first; so of two routes staged under one key, the earlier one stays.
pub open spec fn drain<H>(t: Map<Seq<char>, H>, p: Seq<(Seq<char>, H)>) -> Map<Seq<char>, H>
    decreases p.len(),
{
    if p.len() == 0 {
        t
    } else {
        drain(t.insert(p.last().0, p.last().1), p.drop_last())
    }
}

/// Moving staged routes into a table leaves alone a key that none of them
/// names.
pub proof fn lemma_drain_untouched<H>(t: Map<Seq<char>, H>, p: Seq<(Seq<char>, H)>, k: Seq<char>)
    requires
        forall|i: int| 0 <= i < p.len() ==> (#[trigger] p[i]).0 != k,
    ensures
        drain(t, p).contains_key(k) == t.contains_key(k),
        t.contains_key(k) ==> drain(t, p)[k] == t[k],
    decreases p.len(),
{
    if p.len() > 0 {
        let q = p.drop_last();
        assert(p[p.len() - 1].0 != k);
        assert forall|i: int| 0 <= i < q.len() implies (#[trigger] q[i]).0 != k by {
            assert(q[i] == p[i]);
        }
        lemma_drain_untouched(t.insert(p.last().0, p.last().1), q, k);
    }
}

/// A route staged after all others under other keys is, once built, the
/// one its key finds.
pub proof fn lemma_drain_registered<H>(t: Map<Seq<char>, H>, p: Seq<(Seq<char>, H)>, k: Seq<char>, h: H)
    requires
        forall|i: int| 0 <= i < p.len() ==> (#[trigger] p[i]).0 != k,
    ensures
        drain(t, p.push((k, h))).contains_key(k),
        drain(t, p.push((k, h)))[k] == h,
{
    assert(p.push((k, h)).drop_last() =~= p);
    lemma_drain_untouched(t.insert(k, h), p, k);
}

pub struct Router<H> {
    routes: Vec<(String, H)>,
    before_routes: Vec<(String, H)>,
}

/// Routes with their keys as text.
pub open spec fn entries_view<H>(v: Seq<(String, H)>) -> Seq<(Seq<char>, H)> {
    v.map_values(|e: (String, H)| (e.0@, e.1))
}

impl<H: Fn(Request) -> Response> Router<H> {
    /// The live table.
    pub closed spec fn table(&self) -> Map<Seq<char>, H> {
        map_of(entries_view(self.routes@))
    }

    /// The routes registered and not yet built into the table, in order.
    pub closed spec fn pending(&self) -> Seq<(Seq<char>, H)> {
        entries_view(self.before_routes@)
    }

    /// Live keys are distinct and every handler accepts every request.
    pub closed spec fn wf(&self) -> bool {
        &&& keys_unique(entries_view(self.routes@))
        &&& forall|i: int| 0 <= i < self.routes@.len() ==> total(#[trigger] self.routes@[i].1)
        &&& forall|i: int| 0 <= i < self.before_routes@.len() ==> total(
            #[trigger] self.before_routes@[i].1,
        )
    }

    /// Every handler, live or staged, accepts every request.
    pub proof fn lemma_handlers_total(&self)
        requires
            self.wf(),
        ensures
            forall|k: Seq<char>| #[trigger] self.table().contains_key(k) ==> total(self.table()[k]),
            forall|i: int| 0 <= i < self.pending().len() ==> total(#[trigger] self.pending()[i].1),
    {
        let s = entries_view(self.routes@);
        assert forall|k: Seq<char>| #[trigger] self.table().contains_key(k) implies total(
            self.table()[k],
        ) by {
            lemma_map_of_has(s, k);
            let i = choose|i: int| 0 <= i < s.len() && s[i].0 == k;
            lemma_map_of_at(s, i);
            assert(total(self.routes@[i].1));
        }
        assert forall|i: int| 0 <= i < self.pending().len() implies total(
            #[trigger] self.pending()[i].1,
        ) by {
            assert(total(self.before_routes@[i].1));
        }
    }

    pub fn new() -> (r: Router<H>)
        ensures
            r.wf(),
            r.table() == Map::<Seq<char>, H>::empty(),
            r.pending().len() == 0,
    {
        let r = Router { routes: Vec::new(), before_routes: Vec::new() };
        assert(entries_view(r.routes@) =~= Seq::<(Seq<char>, H)>::empty());
        r
    }

    /// Stages a handler for requests with this method and path. The path
    /// must start with `/`.
    pub fn add(&mut self, method: Method, route: &str, handle: H) -> (r: &mut Router<H>)
        requires
            old(self).wf(),
            route@.len() > 0 && route@[0] == '/',
            total(handle),
        ensures
            r.wf(),
            r.table() == old(self).table(),
            r.pending() == old(self).pending().push((registration_key(method, route@), handle)),
            *final(self) == *final(r),
    {
        let mut key = String::new();
        key.append(method.to_str());
        key.append(" ");
        key.append(route);
        key.append(" ");
        key.append("HTTP/1.1");
        let ghost k = key@;
        self.before_routes.push((key, handle));
        assert(self.pending() =~= old(self).pending().push((k, handle)));
        self
    }

    /// Puts one route into the live table, replacing the handler its key had.
    fn insert_route(&mut self, key: String, handle: H)
        requires
            old(self).wf(),
            total(handle),
        ensures
            final(self).wf(),
            entries_view(final(self).routes@) == put(entries_view(old(self).routes@), key@, handle),
            final(self).table() == old(self).table().insert(key@, handle),
            final(self).before_routes@ == old(self).before_routes@,
    {
        let ghost before = entries_view(self.routes@);
        proof {
            lemma_put(before, key@, handle);
            lemma_key_index(before, key@);
        }
        let n = self.routes.len();
        let mut i: usize = 0;
        while i < n
            invariant
                n == self.routes@.len(),
                before == entries_view(self.routes@),
                *self == *old(self),
                self.wf(),
                total(handle),
                i <= n,
                forall|j: int| 0 <= j < i ==> before[j].0 != key@,
            decreases n - i,
        {
            if same_text(self.routes[i].0.as_str(), key.as_str()) {
                assert(before[i as int].0 == self.routes@[i as int].0@);
                proof {
                    lemma_key_index(before, key@);
                    lemma_put(before, key@, handle);
                }
                self.routes[i] = (key, handle);
                assert(entries_view(self.routes@) =~= put(before, key@, handle));
                assert forall|j: int| 0 <= j < self.routes@.len() implies total(
                    #[trigger] self.routes@[j].1,
                ) by {
                    if j != i {
                        assert(self.routes@[j] == old(self).routes@[j]);
                    }
                }
                return;
            }
            assert(before[i as int].0 == self.routes@[i as int].0@);
            i = i + 1;
        }
        proof {
            lemma_key_index(before, key@);
            lemma_put(before, key@, handle);
        }
        self.routes.push((key, handle));
        assert(entries_view(self.routes@) =~= put(before, key@, handle));
        assert forall|j: int| 0 <= j < self.routes@.len() implies total(
            #[trigger] self.routes@[j].1,
        ) by {
            if j < n {
                assert(self.routes@[j] == old(self).routes@[j]);
            }
        }
    }

    /// Moves every staged route into the live table. Building again with
    /// nothing staged changes nothing.
    pub fn build(&mut self)
        requires
            old(self).wf(),
        ensures
            final(self).wf(),
            final(self).table() == drain(old(self).table(), old(self).pending()),
            final(self).pending().len() == 0,
    {
        loop
            invariant
                self.wf(),
                drain(self.table(), self.pending()) == drain(old(self).table(), old(self).pending()),
            decreases self.before_routes@.len(),
        {
            let ghost p = self.pending();
            let ghost t = self.table();
            match self.before_routes.pop() {
                Some(route) => {
                    let (key, handle) = route;
                    assert(p.last() == (key@, handle));
                    assert(self.pending() =~= p.drop_last());
                    self.insert_route(key, handle);
                },
                None => {
                    assert(self.pending().len() == 0);
                    return;
                },
            }
        }
    }

    /// The live handler stored under `key`.
    pub fn lookup(&self, key: &str) -> (r: Option<&H>)
        requires
            self.wf(),
        ensures
            r is Some <==> self.table().contains_key(key@),
            r is Some ==> *r->Some_0 == self.table()[key@],
    {
        let n = self.routes.len();
        let mut i: usize = 0;
        while i < n
            invariant
                n == self.routes@.len(),
                self.wf(),
                i <= n,
                forall|j: int| 0 <= j < i ==> entries_view(self.routes@)[j].0 != key@,
            decreases n - i,
        {
            assert(entries_view(self.routes@)[i as int].0 == self.routes@[i as int].0@);
            if same_text(self.routes[i].0.as_str(), key) {
                proof {
                    lemma_map_of_at(entries_view(self.routes@), i as int);
                }
                return Some(&self.routes[i].1);
            }
            i = i + 1;
        }
        proof {
            lemma_map_of_has(entries_view(self.routes@), key@);
        }
        None
    }
}

} // verus!
