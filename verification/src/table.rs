//! The route table: the registered routes in registration order, and a cache
//! that remembers which route a path and method resolved to.
//!
//! Resolution takes the first registered route that matches. The cache is
//! keyed by the literal path and the method; entries are added on the first
//! successful scan and never leave, which is sound because routes are only
//! ever added at the end of the table.

use vstd::prelude::*;
use vstd::hash_map::StringHashMap;
use vstd::string::StringExecFns;
use crate::matcher::regex_accepts;
use crate::method::Method;
use crate::request::Request;
use crate::route::{option_pairs, Route};
use crate::template::{parse_template, route_pattern, Part, RouteError};
use crate::text::push_char;

verus! {

/// The identity of a route: its template text, as written, and one method.
#[derive(Debug)]
pub struct RouteDef {
    pub pathdef: String,
    pub method: Method,
}

impl View for RouteDef {
    type V = (Seq<char>, Method);

    open spec fn view(&self) -> (Seq<char>, Method) {
        (self.pathdef@, self.method)
    }
}

/// The index of the first route that takes `path` with `method`.
pub open spec fn first_match<H>(routes: Seq<Route<H>>, path: Seq<char>, method: Method) -> Option<
    int,
>
    decreases routes.len(),
{
    if routes.len() == 0 {
        None
    } else {
        match first_match(routes.drop_last(), path, method) {
            Some(i) => Some(i),
            None => if routes.last().matches(path, method) {
                Some(routes.len() - 1)
            } else {
                None
            },
        }
    }
}

/// `first_match` is the least index of a matching route, if there is one.
pub proof fn lemma_first_match<H>(routes: Seq<Route<H>>, path: Seq<char>, method: Method)
    ensures
        match first_match(routes, path, method) {
            Some(i) => {
                &&& 0 <= i < routes.len()
                &&& routes[i].matches(path, method)
                &&& forall|j: int| 0 <= j < i ==> !(#[trigger] routes[j]).matches(path, method)
            },
            None => forall|j: int|
                0 <= j < routes.len() ==> !(#[trigger] routes[j]).matches(path, method),
        },
    decreases routes.len(),
{
    if routes.len() > 0 {
        let head = routes.drop_last();
        lemma_first_match(head, path, method);
        assert forall|j: int| 0 <= j < head.len() implies head[j] == routes[j] by {}
        match first_match(head, path, method) {
            Some(i) => {
                assert forall|j: int| 0 <= j < i implies !(#[trigger] routes[j]).matches(
                    path,
                    method,
                ) by {
                    assert(head[j] == routes[j]);
                }
            },
            None => {
                assert forall|j: int| 0 <= j < routes.len() - 1 implies !(
                #[trigger] routes[j]).matches(path, method) by {
                    assert(head[j] == routes[j]);
                }
            },
        }
    }
}

/// A matching route with no matching route before it is the first match.
pub proof fn lemma_first_match_at<H>(
    routes: Seq<Route<H>>,
    path: Seq<char>,
    method: Method,
    i: int,
)
    requires
        0 <= i < routes.len(),
        routes[i].matches(path, method),
        forall|j: int| 0 <= j < i ==> !(#[trigger] routes[j]).matches(path, method),
    ensures
        first_match(routes, path, method) == Some(i),
{
    lemma_first_match(routes, path, method);
}

/// Routes added at the end leave every earlier resolution as it was.
pub proof fn lemma_first_match_extend<H>(
    routes: Seq<Route<H>>,
    more: Seq<Route<H>>,
    path: Seq<char>,
    method: Method,
)
    requires
        first_match(routes, path, method) is Some,
    ensures
        first_match(routes + more, path, method) == first_match(routes, path, method),
{
    lemma_first_match(routes, path, method);
    let i = first_match(routes, path, method).unwrap();
    let all = routes + more;
    assert(all[i] == routes[i]);
    assert forall|j: int| 0 <= j < i implies !(#[trigger] all[j]).matches(path, method) by {
        assert(all[j] == routes[j]);
    }
    lemma_first_match_at(all, path, method, i);
}

/// The character that stands for a method in a cache key.
pub open spec fn method_tag(method: Method) -> char {
    match method {
        Method::Get => 'G',
        Method::Put => 'U',
        Method::Post => 'P',
        Method::Delete => 'D',
        Method::Head => 'H',
        Method::Options => 'O',
        Method::Patch => 'A',
        Method::NoImpl => 'N',
    }
}

/// The cache key of a method and a literal path.
pub open spec fn cache_key(method: Method, path: Seq<char>) -> Seq<char> {
    seq![method_tag(method)] + path
}

/// Different requests have different cache keys.
pub proof fn lemma_cache_key_injective(m1: Method, first: Seq<char>, m2: Method, second: Seq<char>)
    requires
        cache_key(m1, first) == cache_key(m2, second),
    ensures
        m1 == m2,
        first == second,
{
    let key_a = cache_key(m1, first);
    let key_b = cache_key(m2, second);
    assert(key_a[0] == method_tag(m1));
    assert(key_b[0] == method_tag(m2));
    assert(key_a.skip(1) =~= first);
    assert(key_b.skip(1) =~= second);
}

/// Every cache entry names the route that a scan from the start would find.
pub open spec fn cache_agrees<H>(routes: Seq<Route<H>>, cache: Map<Seq<char>, usize>) -> bool {
    forall|m: Method, p: Seq<char>| #[trigger]
        cache.contains_key(cache_key(m, p)) ==> first_match(routes, p, m) == Some(
            cache[cache_key(m, p)] as int,
        )
}

/// The cache once a request for `path` with `method` has been resolved: a
/// resolution that found a route is remembered under the key of the request;
/// one that found none leaves the cache as it was.
pub open spec fn remembered<H>(
    routes: Seq<Route<H>>,
    cache: Map<Seq<char>, usize>,
    path: Seq<char>,
    method: Method,
) -> Map<Seq<char>, usize> {
    match first_match(routes, path, method) {
        Some(i) => cache.insert(cache_key(method, path), i as usize),
        None => cache,
    }
}

/// The methods of a list without repetition, each where it first occurs.
pub open spec fn distinct_methods(ms: Seq<Method>) -> Seq<Method>
    decreases ms.len(),
{
    if ms.len() == 0 {
        Seq::empty()
    } else {
        let d = distinct_methods(ms.drop_last());
        if d.contains(ms.last()) {
            d
        } else {
            d.push(ms.last())
        }
    }
}

/// Why adding the routes of a template for some methods fails, if it does:
/// the template is refused, or one of the routes is there already. With no
/// method there is nothing to add and nothing fails.
pub open spec fn add_route_error(
    defs: Seq<(Seq<char>, Method)>,
    path: Seq<char>,
    ms: Seq<Method>,
) -> Option<RouteError> {
    if ms.len() == 0 {
        None
    } else {
        match parse_template(path) {
            Err(e) => Some(e),
            Ok(parts) => if !regex_accepts(route_pattern(parts)) {
                Some(RouteError::Rejected)
            } else if exists|k: int| 0 <= k < ms.len() && defs.contains((path, #[trigger] ms[k])) {
                Some(RouteError::AlreadyDefined)
            } else {
                None
            },
        }
    }
}

/// A route compiled from `path` that answers to `method` alone with `handler`.
pub open spec fn serves<H>(route: Route<H>, path: Seq<char>, method: Method, handler: H) -> bool {
    &&& route.wf()
    &&& parse_template(path) == Ok::<Seq<Part>, RouteError>(route.template())
    &&& route.methods() == set![method]
    &&& route.bound_handler() == handler
}

fn tag_of(method: Method) -> (c: char)
    ensures
        c == method_tag(method),
{
    match method {
        Method::Get => 'G',
        Method::Put => 'U',
        Method::Post => 'P',
        Method::Delete => 'D',
        Method::Head => 'H',
        Method::Options => 'O',
        Method::Patch => 'A',
        Method::NoImpl => 'N',
    }
}

fn key_of(method: Method, path: &str) -> (k: String)
    ensures
        k@ == cache_key(method, path@),
{
    let mut k = String::new();
    push_char(&mut k, tag_of(method));
    k.append(path);
    assert(k@ =~= cache_key(method, path@));
    k
}

/// `distinct_methods` holds every method of the list once.
pub proof fn lemma_distinct_methods(ms: Seq<Method>)
    ensures
        distinct_methods(ms).no_duplicates(),
        forall|m: Method| #[trigger] distinct_methods(ms).contains(m) <==> ms.contains(m),
    decreases ms.len(),
{
    if ms.len() > 0 {
        let head = ms.drop_last();
        let last = ms.last();
        let d = distinct_methods(head);
        let dm = distinct_methods(ms);
        lemma_distinct_methods(head);
        assert forall|m: Method| #[trigger] dm.contains(m) <==> ms.contains(m) by {
            assert(d.contains(m) <==> head.contains(m));
            if ms.contains(m) {
                let i = choose|i: int| 0 <= i < ms.len() && ms[i] == m;
                if i < head.len() {
                    assert(head[i] == m);
                    assert(head.contains(m));
                    let j = choose|j: int| 0 <= j < d.len() && d[j] == m;
                    assert(dm[j] == m);
                } else {
                    assert(m == last);
                    if d.contains(last) {
                    } else {
                        assert(dm[d.len() as int] == m);
                    }
                }
                assert(dm.contains(m));
            }
            if dm.contains(m) {
                let j = choose|j: int| 0 <= j < dm.len() && dm[j] == m;
                if j < d.len() {
                    assert(d[j] == m);
                    assert(d.contains(m));
                    let i = choose|i: int| 0 <= i < head.len() && head[i] == m;
                    assert(ms[i] == m);
                } else {
                    assert(m == last);
                    assert(ms[ms.len() - 1] == m);
                }
                assert(ms.contains(m));
            }
        }
    }
}

fn unique_methods(mlist: &[Method]) -> (r: Vec<Method>)
    ensures
        r@ == distinct_methods(mlist@),
{
    let mut r: Vec<Method> = Vec::new();
    let mut i: usize = 0;
    proof {
        assert(mlist@.take(0) =~= Seq::<Method>::empty());
    }
    while i < mlist.len()
        invariant
            i <= mlist.len(),
            r@ == distinct_methods(mlist@.take(i as int)),
        decreases mlist.len() - i,
    {
        proof {
            let t = mlist@.take(i + 1);
            assert(t.drop_last() =~= mlist@.take(i as int));
            assert(t.last() == mlist@[i as int]);
        }
        let m = mlist[i];
        let mut seen = false;
        let mut j: usize = 0;
        while j < r.len()
            invariant
                j <= r.len(),
                seen <==> exists|a: int| 0 <= a < j && r@[a] == m,
            decreases r.len() - j,
        {
            if r[j] == m {
                seen = true;
            }
            j = j + 1;
        }
        if !seen {
            r.push(m);
        }
        i = i + 1;
    }
    proof {
        assert(mlist@.take(mlist.len() as int) =~= mlist@);
    }
    r
}

/// The route table.
pub struct RouteTable<H> {
    entries: Vec<(RouteDef, Route<H>)>,
    cache: StringHashMap<usize>,
}

impl<H: Copy> RouteTable<H> {
    /// The registered routes, in registration order.
    pub closed spec fn routes(&self) -> Seq<Route<H>> {
        Seq::new(self.entries@.len(), |i: int| self.entries@[i].1)
    }

    /// The identities of the registered routes, in registration order.
    pub closed spec fn defs(&self) -> Seq<(Seq<char>, Method)> {
        Seq::new(self.entries@.len(), |i: int| self.entries@[i].0@)
    }

    /// The resolution cache: from cache key to the index of a route.
    pub closed spec fn cached(&self) -> Map<Seq<char>, usize> {
        self.cache@
    }

    /// The table is well formed when no identity is registered twice and
    /// every cache entry agrees with a scan from the start.
    pub open spec fn wf(&self) -> bool {
        &&& self.defs().len() == self.routes().len()
        &&& self.defs().no_duplicates()
        &&& cache_agrees(self.routes(), self.cached())
    }

    /// What a request for `path` with `method` resolves to: the handler of
    /// the first matching route and the parameters that route extracts.
    pub open spec fn resolution(&self, path: Seq<char>, method: Method) -> Option<
        (H, Option<Seq<(Seq<char>, Seq<char>)>>),
    > {
        match first_match(self.routes(), path, method) {
            Some(i) => Some((self.routes()[i].bound_handler(), self.routes()[i].extract(path))),
            None => None,
        }
    }

    /// An empty table.
    pub fn new() -> (t: RouteTable<H>)
        ensures
            t.wf(),
            t.routes().len() == 0,
            t.defs().len() == 0,
            t.cached() == Map::<Seq<char>, usize>::empty(),
    {
        RouteTable { entries: Vec::new(), cache: StringHashMap::new() }
    }

    /// The number of registered routes.
    pub fn len(&self) -> (n: usize)
        ensures
            n == self.routes().len(),
    {
        self.entries.len()
    }

    /// Whether a route with this template text and method is registered.
    pub fn is_defined(&self, path: &str, method: Method) -> (r: bool)
        ensures
            r == self.defs().contains((path@, method)),
    {
        let probe = path.to_owned();
        let mut i: usize = 0;
        while i < self.entries.len()
            invariant
                i <= self.entries.len(),
                probe@ == path@,
                forall|j: int| 0 <= j < i ==> self.defs()[j] != (path@, method),
            decreases self.entries.len() - i,
        {
            if self.entries[i].0.method == method && self.entries[i].0.pathdef == probe {
                assert(self.defs()[i as int] == (path@, method));
                return true;
            }
            i = i + 1;
        }
        false
    }

    /// Registers a route under an identity. A second registration of the same
    /// identity is refused and leaves the table as it was.
    pub fn register(&mut self, def: RouteDef, route: Route<H>) -> (r: Result<(), RouteError>)
        requires
            old(self).wf(),
        ensures
            final(self).wf(),
            match r {
                Ok(()) => {
                    &&& !old(self).defs().contains(def@)
                    &&& final(self).defs() == old(self).defs().push(def@)
                    &&& final(self).routes() == old(self).routes().push(route)
                },
                Err(e) => {
                    &&& e == RouteError::AlreadyDefined
                    &&& old(self).defs().contains(def@)
                    &&& final(self).defs() == old(self).defs()
                    &&& final(self).routes() == old(self).routes()
                },
            },
            final(self).cached() == old(self).cached(),
    {
        if self.is_defined(def.pathdef.as_str(), def.method) {
            return Err(RouteError::AlreadyDefined);
        }
        let ghost old_routes = self.routes();
        let ghost old_defs = self.defs();
        self.entries.push((def, route));
        proof {
            assert(self.defs() =~= old_defs.push(def@));
            assert(self.routes() =~= old_routes.push(route));
            assert(self.routes() =~= old_routes + seq![route]);
            assert forall|m: Method, p: Seq<char>| #[trigger]
                self.cached().contains_key(cache_key(m, p)) implies first_match(
                self.routes(),
                p,
                m,
            ) == Some(self.cached()[cache_key(m, p)] as int) by {
                lemma_first_match_extend(old_routes, seq![route], p, m);
            }
        }
        Ok(())
    }

    /// Adds one route for each method of the list, all compiled from one
    /// template and bound to one handler. Either every route is added, in the
    /// order in which the methods first occur, or none is and the table stays
    /// as it was: the template is refused, or one of the routes is registered
    /// already.
    pub fn add_route(&mut self, path: &str, mlist: &[Method], handler: H) -> (r: Result<
        (),
        RouteError,
    >)
        requires
            old(self).wf(),
        ensures
            final(self).wf(),
            final(self).cached() == old(self).cached(),
            match r {
                Ok(()) => {
                    let ms = distinct_methods(mlist@);
                    let n = old(self).routes().len();
                    &&& add_route_error(old(self).defs(), path@, ms) is None
                    &&& final(self).defs() == old(self).defs() + Seq::new(
                        ms.len(),
                        |k: int| (path@, ms[k]),
                    )
                    &&& final(self).routes().len() == n + ms.len()
                    &&& final(self).routes().take(n as int) == old(self).routes()
                    &&& forall|k: int|
                        0 <= k < ms.len() ==> serves(
                            #[trigger] final(self).routes()[n + k],
                            path@,
                            ms[k],
                            handler,
                        )
                },
                Err(e) => {
                    &&& add_route_error(old(self).defs(), path@, distinct_methods(mlist@)) == Some(e)
                    &&& final(self).defs() == old(self).defs()
                    &&& final(self).routes() == old(self).routes()
                },
            },
    {
        let ms = unique_methods(mlist);
        let mut pending: Vec<(RouteDef, Route<H>)> = Vec::new();
        let mut k: usize = 0;
        while k < ms.len()
            invariant
                k <= ms.len(),
                pending.len() == k,
                *self == *old(self),
                self.wf(),
                ms@ == distinct_methods(mlist@),
                forall|j: int|
                    0 <= j < k ==> (#[trigger] pending@[j]).0@ == (path@, ms@[j]) && serves(
                        pending@[j].1,
                        path@,
                        ms@[j],
                        handler,
                    ),
                k > 0 ==> parse_template(path@) is Ok && regex_accepts(
                    route_pattern(parse_template(path@).unwrap()),
                ),
            decreases ms.len() - k,
        {
            let mut one: Vec<Method> = Vec::new();
            one.push(ms[k]);
            proof {
                assert(one@ =~= seq![ms@[k as int]]);
                assert(seq![ms@[k as int]].to_set() =~= set![ms@[k as int]]) by {
                    assert forall|m: Method| seq![ms@[k as int]].to_set().contains(m) <==> set![
                        ms@[k as int],
                    ].contains(m) by {
                        if m == ms@[k as int] {
                            assert(seq![ms@[k as int]][0] == m);
                        }
                    }
                }
            }
            match Route::new(path, one, handler) {
                Ok(route) => {
                    pending.push((RouteDef { pathdef: path.to_owned(), method: ms[k] }, route));
                },
                Err(e) => {
                    return Err(e);
                },
            }
            k = k + 1;
        }
        let mut k: usize = 0;
        while k < ms.len()
            invariant
                k <= ms.len(),
                *self == *old(self),
                self.wf(),
                ms@ == distinct_methods(mlist@),
                pending.len() == ms.len(),
                forall|j: int|
                    0 <= j < ms.len() ==> (#[trigger] pending@[j]).0@ == (path@, ms@[j]) && serves(
                        pending@[j].1,
                        path@,
                        ms@[j],
                        handler,
                    ),
                ms.len() > 0 ==> parse_template(path@) is Ok && regex_accepts(
                    route_pattern(parse_template(path@).unwrap()),
                ),
                forall|j: int| 0 <= j < k ==> !self.defs().contains((path@, #[trigger] ms@[j])),
            decreases ms.len() - k,
        {
            if self.is_defined(path, ms[k]) {
                return Err(RouteError::AlreadyDefined);
            }
            k = k + 1;
        }
        let ghost old_routes = self.routes();
        let ghost old_defs = self.defs();
        let ghost added = pending@;
        let ghost more = Seq::new(added.len(), |i: int| added[i].1);
        self.entries.append(&mut pending);
        proof {
            let new_defs = Seq::new(ms@.len(), |k: int| (path@, ms@[k]));
            assert(self.defs() =~= old_defs + new_defs);
            assert(self.routes() =~= old_routes + more);
            assert(self.routes().take(old_routes.len() as int) =~= old_routes);
            lemma_distinct_methods(mlist@);
            assert forall|i: int, j: int| 0 <= i < j < self.defs().len() implies self.defs()[i]
                != self.defs()[j] by {
                let n = old_defs.len() as int;
                if j < n {
                } else if i < n {
                    assert(old_defs.contains(old_defs[i]));
                } else {
                    assert(ms@[i - n] != ms@[j - n]);
                }
            }
            assert forall|m: Method, p: Seq<char>| #[trigger]
                self.cached().contains_key(cache_key(m, p)) implies first_match(
                self.routes(),
                p,
                m,
            ) == Some(self.cached()[cache_key(m, p)] as int) by {
                lemma_first_match_extend(old_routes, more, p, m);
            }
        }
        Ok(())
    }

    /// The index of the first route that takes `path` with `method`, found by
    /// scanning the table from the start.
    pub fn scan(&self, path: &str, method: Method) -> (r: Option<usize>)
        ensures
            match r {
                Some(i) => first_match(self.routes(), path@, method) == Some(i as int),
                None => first_match(self.routes(), path@, method) is None,
            },
    {
        let mut i: usize = 0;
        while i < self.entries.len()
            invariant
                i <= self.entries.len(),
                forall|j: int| 0 <= j < i ==> !(#[trigger] self.routes()[j]).matches(path@, method),
            decreases self.entries.len() - i,
        {
            if self.entries[i].1.takes(path, method) {
                proof {
                    lemma_first_match_at(self.routes(), path@, method, i as int);
                }
                return Some(i);
            }
            i = i + 1;
        }
        proof {
            lemma_first_match(self.routes(), path@, method);
        }
        None
    }

    /// The index of the first route that takes `path` with `method`. A
    /// resolution seen before is answered from the cache; a new one is found
    /// by a scan and remembered.
    pub fn find(&mut self, path: &str, method: Method) -> (r: Option<usize>)
        requires
            old(self).wf(),
        ensures
            final(self).wf(),
            final(self).routes() == old(self).routes(),
            final(self).defs() == old(self).defs(),
            match r {
                Some(i) => first_match(old(self).routes(), path@, method) == Some(i as int),
                None => first_match(old(self).routes(), path@, method) is None,
            },
            final(self).cached() == remembered(
                old(self).routes(),
                old(self).cached(),
                path@,
                method,
            ),
    {
        let key = key_of(method, path);
        match self.cache.get(key.as_str()) {
            Some(i) => {
                let i: usize = *i;
                assert(self.cached().contains_key(cache_key(method, path@)));
                assert(self.cached().insert(cache_key(method, path@), i) =~= self.cached());
                return Some(i);
            },
            None => {},
        }
        match self.scan(path, method) {
            Some(i) => {
                let ghost old_cache = self.cached();
                self.cache.insert(key, i);
                proof {
                    assert forall|m: Method, p: Seq<char>| #[trigger]
                        self.cached().contains_key(cache_key(m, p)) implies first_match(
                        self.routes(),
                        p,
                        m,
                    ) == Some(self.cached()[cache_key(m, p)] as int) by {
                        if cache_key(m, p) == cache_key(method, path@) {
                            lemma_cache_key_injective(m, p, method, path@);
                        } else {
                            assert(old_cache.contains_key(cache_key(m, p)));
                        }
                    }
                }
                Some(i)
            },
            None => None,
        }
    }

    /// Resolves a request: the handler of the first route that takes it, and
    /// the parameters that the route extracts from its path. `None` where no
    /// route takes the request.
    pub fn resolve(&mut self, req: &Request) -> (r: Option<(H, Option<Vec<(String, String)>>)>)
        requires
            old(self).wf(),
        ensures
            final(self).wf(),
            final(self).routes() == old(self).routes(),
            final(self).defs() == old(self).defs(),
            match r {
                Some((h, params)) => old(self).resolution(req.path@, req.method) == Some(
                    (h, option_pairs(params)),
                ),
                None => old(self).resolution(req.path@, req.method) is None,
            },
            final(self).cached() == remembered(
                old(self).routes(),
                old(self).cached(),
                req.path@,
                req.method,
            ),
    {
        match self.find(req.path.as_str(), req.method) {
            Some(i) => {
                proof {
                    lemma_first_match(self.routes(), req.path@, req.method);
                }
                let route = &self.entries[i].1;
                let params = route.parse(req.path.as_str());
                Some((*route.handler(), params))
            },
            None => None,
        }
    }
}

/// Resolution is deterministic: what a request resolves to depends on the
/// registered routes, in their order, and on the path and the method of the
/// request, and on nothing else. Two tables with the same routes resolve
/// every request alike, whatever their caches hold.
pub proof fn lemma_resolution_deterministic<H: Copy>(
    a: RouteTable<H>,
    b: RouteTable<H>,
    path: Seq<char>,
    method: Method,
)
    requires
        a.routes() == b.routes(),
    ensures
        a.resolution(path, method) == b.resolution(path, method),
        first_match(a.routes(), path, method) == first_match(b.routes(), path, method),
{
}

/// The cache never departs from the scan: in a well-formed table, whatever
/// the cache holds for a path and a method is the route that a scan from the
/// start finds for them.
pub proof fn lemma_cache_agrees_with_scan<H: Copy>(
    table: RouteTable<H>,
    path: Seq<char>,
    method: Method,
)
    requires
        table.wf(),
        table.cached().contains_key(cache_key(method, path)),
    ensures
        first_match(table.routes(), path, method) == Some(
            table.cached()[cache_key(method, path)] as int,
        ),
        0 <= table.cached()[cache_key(method, path)] < table.routes().len(),
{
    lemma_first_match(table.routes(), path, method);
}

/// A template and method that are registered cannot be registered again:
/// adding them fails, whatever else is added with them.
pub proof fn lemma_second_registration_refused(
    defs: Seq<(Seq<char>, Method)>,
    path: Seq<char>,
    ms: Seq<Method>,
    k: int,
)
    requires
        0 <= k < ms.len(),
        defs.contains((path, ms[k])),
    ensures
        add_route_error(defs, path, ms) is Some,
        parse_template(path) is Ok && regex_accepts(route_pattern(parse_template(path).unwrap()))
            ==> add_route_error(defs, path, ms) == Some(RouteError::AlreadyDefined),
{
}

/// A template registered for one method can be registered for another.
pub proof fn lemma_other_method_accepted(
    defs: Seq<(Seq<char>, Method)>,
    path: Seq<char>,
    m1: Method,
    m2: Method,
)
    requires
        m1 != m2,
        parse_template(path) is Ok,
        regex_accepts(route_pattern(parse_template(path).unwrap())),
        !defs.contains((path, m2)),
    ensures
        add_route_error(defs.push((path, m1)), path, seq![m2]) is None,
{
    let more = defs.push((path, m1));
    if more.contains((path, m2)) {
        let i = choose|i: int| 0 <= i < more.len() && more[i] == (path, m2);
        if i < defs.len() {
            assert(defs[i] == (path, m2));
        }
    }
    assert forall|k: int| 0 <= k < seq![m2].len() implies !more.contains(
        (path, #[trigger] seq![m2][k]),
    ) by {}
}

/// Two routes of one template for two methods match independently: each
/// takes exactly the paths of the template with its own method, and neither
/// takes a request with the method of the other.
pub proof fn lemma_methods_match_independently<H>(
    r1: Route<H>,
    r2: Route<H>,
    template: Seq<char>,
    m1: Method,
    m2: Method,
    h1: H,
    h2: H,
    path: Seq<char>,
)
    requires
        serves(r1, template, m1, h1),
        serves(r2, template, m2, h2),
        m1 != m2,
    ensures
        r1.matches(path, m1) == r2.matches(path, m2),
        r1.matches(path, m1) == crate::matcher::regex_is_match(r1.pattern(), path),
        !r1.matches(path, m2),
        !r2.matches(path, m1),
        r1.extract(path) == r2.extract(path),
{
}

} // verus!
