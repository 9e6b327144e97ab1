//! Route tries, one per method, and the dispatcher that owns them.
use vstd::prelude::*;

use crate::request::{resource_path, HttpRequest, Method, Resource};
use crate::text::{
    chars_of, copy_chars, eq_chars, first_index, lemma_first_index_absent, lemma_first_index_at,
    lemma_first_index_range, push_all, split_chars, split_on, views,
};

verus! {

/// Why a route could not be registered.
#[derive(Debug, Clone, Copy, PartialEq, Eq, Structural)]
pub enum RouteError {
    /// The path is already bound for this method.
    DuplicateRoute,
}

/// The segments that `path` names below the root: `""` and `"/"` name the
/// root itself; otherwise the path is cut at every `/` and the part before
/// the first `/` is dropped. A non-empty path without `/` names no node.
pub open spec fn segments(path: Seq<char>) -> Option<Seq<Seq<char>>> {
    if path.len() == 0 || path == seq!['/'] {
        Some(Seq::<Seq<char>>::empty())
    } else {
        let parts = split_on(path, '/');
        if parts.len() <= 1 {
            None
        } else {
            Some(parts.drop_first())
        }
    }
}

/// Computes `segments(path)`.
pub fn path_segments(path: &[char]) -> (r: Option<Vec<Vec<char>>>)
    ensures
        match segments(path@) {
            None => r is None,
            Some(segs) => r is Some && views(r->0@) == segs,
        },
{
    if path.len() == 0 || (path.len() == 1 && path[0] == '/') {
        proof {
            if path.len() == 1 {
                assert(path@ =~= seq!['/']);
            }
        }
        return Some(Vec::new());
    }
    proof {
        assert(path@ != seq!['/']);
    }
    let mut parts = split_chars(path, '/');
    if parts.len() <= 1 {
        return None;
    }
    let ghost all = views(parts@);
    parts.remove(0);
    proof {
        assert(views(parts@) =~= all.drop_first());
    }
    Some(parts)
}

/// Keys of a child list, in order.
pub open spec fn keys_of<H>(cs: Seq<(Vec<char>, RouteTree<H>)>) -> Seq<Seq<char>> {
    cs.map_values(|p: (Vec<char>, RouteTree<H>)| p.0@)
}

/// A node of a route trie: the handler bound at this path, if any, and the
/// subtrees under each next segment.
pub struct RouteTree<H> {
    handler_func: Option<H>,
    children: Vec<(Vec<char>, RouteTree<H>)>,
}

impl<H: Copy> RouteTree<H> {
    /// The handler bound at the path `segs` below this node.
    pub closed spec fn get_spec(&self, segs: Seq<Seq<char>>) -> Option<H>
        decreases segs.len(),
    {
        if segs.len() == 0 {
            self.handler_func
        } else {
            let j = first_index(keys_of(self.children@), segs[0]);
            if 0 <= j < self.children@.len() {
                self.children@[j].1.get_spec(segs.drop_first())
            } else {
                None
            }
        }
    }

    /// The routes of this trie: each bound path, as its segments, with its handler.
    pub open spec fn routes(&self) -> Map<Seq<Seq<char>>, H> {
        Map::new(|q: Seq<Seq<char>>| self.get_spec(q) is Some, |q: Seq<Seq<char>>| self.get_spec(q)->0)
    }

    /// An empty trie.
    pub fn new() -> (r: Self)
        ensures
            r.routes() == Map::<Seq<Seq<char>>, H>::empty(),
    {
        let r = RouteTree { handler_func: None, children: Vec::new() };
        proof {
            assert forall|q: Seq<Seq<char>>| r.get_spec(q) is None by {
                if q.len() > 0 {
                    assert(first_index(keys_of(r.children@), q[0]) == -1);
                }
            }
            assert(r.routes() =~= Map::<Seq<Seq<char>>, H>::empty());
        }
        r
    }

    /// An empty trie to serve as the root of a method's routes.
    pub fn root() -> (r: Self)
        ensures
            r.routes() == Map::<Seq<Seq<char>>, H>::empty(),
    {
        Self::new()
    }

    /// The handler bound at `path`: none where the path names no node.
    pub open spec fn route_of(&self, path: Seq<char>) -> Option<H> {
        match segments(path) {
            None => None,
            Some(segs) => if self.routes().dom().contains(segs) {
                Some(self.routes()[segs])
            } else {
                None
            },
        }
    }

    fn lookup(&self, path: &[char]) -> (r: Option<H>)
        ensures
            r == self.route_of(path@),
    {
        let segs = match path_segments(path) {
            None => {
                return None;
            },
            Some(segs) => segs,
        };
        let ghost all = views(segs@);
        let mut cur: &RouteTree<H> = self;
        let mut i: usize = 0;
        proof {
            assert(all.skip(0) =~= all);
        }
        while i < segs.len()
            invariant
                i <= segs@.len(),
                all == views(segs@),
                segments(path@) == Some(all),
                self.get_spec(all) == cur.get_spec(all.skip(i as int)),
            decreases segs.len() - i,
        {
            let ghost rest = all.skip(i as int);
            proof {
                assert(rest[0] == segs@[i as int]@);
                assert(rest.drop_first() =~= all.skip(i + 1));
                lemma_first_index_range(keys_of(cur.children@), rest[0]);
            }
            match Self::find_child(&cur.children, segs[i].as_slice()) {
                None => {
                    proof {
                        assert(cur.get_spec(rest) is None);
                        assert(!self.routes().dom().contains(all));
                    }
                    return None;
                },
                Some(j) => {
                    cur = &cur.children[j].1;
                },
            }
            i = i + 1;
        }
        proof {
            assert(all.skip(i as int) =~= Seq::<Seq<char>>::empty());
        }
        cur.handler_func
    }

    /// Looks up the handler bound at `path`.
    pub fn find_handler(&self, path: String) -> (r: Option<H>)
        ensures
            r == self.route_of(path@),
    {
        let p = chars_of(path.as_str());
        self.lookup(&p)
    }

    fn register(&mut self, path: &[char], handler_func: H) -> (r: Result<(), RouteError>)
        ensures
            match segments(path@) {
                None => r is Ok && final(self).routes() == old(self).routes(),
                Some(segs) => if old(self).routes().dom().contains(segs) {
                    r == Err::<(), RouteError>(RouteError::DuplicateRoute) && final(self).routes()
                        == old(self).routes()
                } else {
                    r is Ok && final(self).routes() == old(self).routes().insert(segs, handler_func)
                },
            },
    {
        match path_segments(path) {
            None => Ok(()),
            Some(segs) => {
                let r = self.insert_at(&segs, 0, handler_func);
                proof {
                    assert(views(segs@).skip(0) =~= views(segs@));
                    if r is Ok {
                        assert(self.routes() =~= old(self).routes().insert(views(segs@), handler_func));
                    } else {
                        assert(self.routes() =~= old(self).routes());
                    }
                }
                r
            },
        }
    }

    /// Binds `handler_func` at `path`, unless a handler is bound there
    /// already: that is `DuplicateRoute`, and the first binding stays. A
    /// non-empty path without `/` names no node and binds nothing.
    pub fn regis_route(&mut self, path: String, handler_func: H) -> (r: Result<(), RouteError>)
        ensures
            match segments(path@) {
                None => r is Ok && final(self).routes() == old(self).routes(),
                Some(segs) => if old(self).routes().dom().contains(segs) {
                    r == Err::<(), RouteError>(RouteError::DuplicateRoute) && final(self).routes()
                        == old(self).routes()
                } else {
                    r is Ok && final(self).routes() == old(self).routes().insert(segs, handler_func)
                },
            },
    {
        let p = chars_of(path.as_str());
        self.register(&p, handler_func)
    }

    fn find_child(children: &Vec<(Vec<char>, RouteTree<H>)>, key: &[char]) -> (r: Option<usize>)
        ensures
            first_index(keys_of(children@), key@) >= 0 ==> r is Some && r->0 == first_index(
                keys_of(children@),
                key@,
            ),
            first_index(keys_of(children@), key@) < 0 ==> r is None,
            r is Some ==> r->0 < children@.len(),
    {
        let ghost keys = keys_of(children@);
        let mut i: usize = 0;
        while i < children.len()
            invariant
                i <= children@.len(),
                keys == keys_of(children@),
                forall|t: int| 0 <= t < i ==> keys[t] != key@,
            decreases children.len() - i,
        {
            if eq_chars(children[i].0.as_slice(), key) {
                proof {
                    lemma_first_index_at(keys, key@, i as int);
                }
                return Some(i);
            }
            i = i + 1;
        }
        proof {
            lemma_first_index_absent(keys, key@);
        }
        None
    }

    /// Binds `h` at the path `segs[i..]` below this node, unless a handler is
    /// bound there already.
    fn insert_at(&mut self, segs: &Vec<Vec<char>>, i: usize, h: H) -> (r: Result<(), RouteError>)
        requires
            i <= segs.len(),
        ensures
            r is Err <==> old(self).get_spec(views(segs@).skip(i as int)) is Some,
            r is Err ==> r == Err::<(), RouteError>(RouteError::DuplicateRoute),
            forall|q: Seq<Seq<char>>|
                #![trigger final(self).get_spec(q)]
                final(self).get_spec(q) == if r is Ok && q == views(segs@).skip(i as int) {
                    Some(h)
                } else {
                    old(self).get_spec(q)
                },
        decreases segs.len() - i,
    {
        let ghost rest = views(segs@).skip(i as int);
        if i == segs.len() {
            proof {
                assert(rest =~= Seq::<Seq<char>>::empty());
            }
            if self.handler_func.is_some() {
                return Err(RouteError::DuplicateRoute);
            }
            self.handler_func = Some(h);
            proof {
                assert forall|q: Seq<Seq<char>>|
                    #![trigger final(self).get_spec(q)]
                    self.get_spec(q) == if q == rest {
                        Some(h)
                    } else {
                        old(self).get_spec(q)
                    } by {
                    if q.len() == 0 {
                        assert(q =~= rest);
                    }
                }
            }
            return Ok(());
        }
        let ghost next = views(segs@).skip(i + 1);
        proof {
            assert(rest.len() > 0);
            assert(rest[0] == segs@[i as int]@);
            assert(rest.drop_first() =~= next);
        }
        let ghost old_children = self.children@;
        let ghost keys = keys_of(old_children);
        proof {
            lemma_first_index_range(keys, segs@[i as int]@);
        }
        let seg = segs[i].as_slice();
        proof {
            assert(seg@ == rest[0]);
        }
        match Self::find_child(&self.children, seg) {
            Some(j) => {
                proof {
                    assert(first_index(keys, rest[0]) == j as int);
                    assert(keys[j as int] == rest[0]);
                }
                let (k, mut child) = self.children.remove(j);
                let ghost old_child = child;
                proof {
                    assert(old_children[j as int].1 == old_child);
                    assert(old(self).get_spec(rest) == old_child.get_spec(next));
                }
                let r = child.insert_at(segs, i + 1, h);
                self.children.insert(j, (k, child));
                proof {
                    assert(self.children@ =~= old_children.update(j as int, (k, child)));
                    assert(keys_of(self.children@) =~= keys);
                    {
                        assert forall|q: Seq<Seq<char>>|
                            #![trigger final(self).get_spec(q)]
                            self.get_spec(q) == if r is Ok && q == rest {
                                Some(h)
                            } else {
                                old(self).get_spec(q)
                            } by {
                            if q.len() > 0 {
                                let jq = first_index(keys, q[0]);
                                lemma_first_index_range(keys, q[0]);
                                assert(keys[j as int] == rest[0]);
                                if jq == j as int {
                                    assert(keys[jq] == q[0]);
                                    assert(self.get_spec(q) == child.get_spec(q.drop_first()));
                                    assert(old(self).get_spec(q) == old_child.get_spec(q.drop_first()));
                                    assert(q[0] == rest[0]);
                                    if q.drop_first() == next {
                                        assert(q =~= seq![q[0]] + q.drop_first());
                                        assert(rest =~= seq![rest[0]] + rest.drop_first());
                                        assert(q =~= rest);
                                    } else {
                                        assert(q != rest);
                                    }
                                } else {
                                    assert(q[0] != rest[0]);
                                    if jq >= 0 {
                                        assert(self.children@[jq] == old_children[jq]);
                                    }
                                }
                            }
                        }
                    }
                }
                r
            },
            None => {
                proof {
                    assert(first_index(keys, rest[0]) == -1);
                }
                let mut child: RouteTree<H> = RouteTree::new();
                let ghost fresh = child;
                proof {
                    assert(fresh.routes().dom().contains(next) == (fresh.get_spec(next) is Some));
                }
                let r = child.insert_at(segs, i + 1, h);
                let key = copy_chars(segs[i].as_slice());
                self.children.push((key, child));
                proof {
                    assert(keys_of(self.children@) =~= keys.push(rest[0]));
                    assert forall|q: Seq<Seq<char>>|
                        #![trigger final(self).get_spec(q)]
                        self.get_spec(q) == if q == rest {
                            Some(h)
                        } else {
                            old(self).get_spec(q)
                        } by {
                        if q.len() > 0 {
                            let nk = keys_of(self.children@);
                            lemma_first_index_range(keys, q[0]);
                            assert(nk.drop_last() =~= keys);
                            assert(nk.last() == rest[0]);
                            let jo = first_index(keys, q[0]);
                            if jo >= 0 {
                                assert(first_index(nk, q[0]) == jo);
                                assert(self.children@[jo] == old_children[jo]);
                            } else if q[0] == rest[0] {
                                assert(first_index(nk, q[0]) == keys.len());
                                assert(self.children@[keys.len() as int].1 == child);
                                assert(self.get_spec(q) == child.get_spec(q.drop_first()));
                                assert(old(self).get_spec(q) is None);
                                assert(fresh.routes().dom().contains(q.drop_first()) == (fresh.get_spec(q.drop_first()) is Some));
                                if q.drop_first() == next {
                                    assert(q =~= seq![q[0]] + q.drop_first());
                                    assert(rest =~= seq![rest[0]] + rest.drop_first());
                                    assert(q =~= rest);
                                } else {
                                    assert(q != rest);
                                }
                            } else {
                                assert(first_index(nk, q[0]) == -1);
                            }
                        }
                    }
                }
                r
            },
        }
    }
}

/// What registering `h` for `m` at `path` does, where `r` is its result:
/// it succeeds exactly where no handler is bound there yet; then `h` is
/// found at every path with the same segments; nothing else changes.
pub open spec fn registered<H>(
    before: RouterMap<H>,
    after: RouterMap<H>,
    m: Method,
    path: Seq<char>,
    h: H,
    r: Result<(), RouteError>,
) -> bool where H: Copy {
    &&& segments(path) is Some ==> (r is Ok <==> before.route_of(m, path) is None)
    &&& r is Err ==> r == Err::<(), RouteError>(RouteError::DuplicateRoute)
    &&& forall|q: Seq<char>|
        #![trigger after.route_of(m, q)]
        after.route_of(m, q) == if r is Ok && segments(q) is Some && segments(q) == segments(path) {
            Some(h)
        } else {
            before.route_of(m, q)
        }
    &&& forall|m2: Method| m2 != m ==> #[trigger] after.routes(m2) == before.routes(m2)
}

/// Registering a handler at a path for a method on a dispatcher with no
/// routes succeeds; then that path gives the handler for that method, and
/// nothing for every other method.
pub proof fn law_lookup_after_register<H: Copy>(
    before: RouterMap<H>,
    after: RouterMap<H>,
    m: Method,
    path: Seq<char>,
    h: H,
    r: Result<(), RouteError>,
)
    requires
        forall|m2: Method, p: Seq<char>| #[trigger] before.route_of(m2, p) is None,
        segments(path) is Some,
        registered(before, after, m, path, h, r),
    ensures
        r is Ok,
        after.route_of(m, path) == Some(h),
        forall|m2: Method| m2 != m ==> #[trigger] after.route_of(m2, path) is None,
{
    assert(before.route_of(m, path) is None);
    assert(after.route_of(m, path) == Some(h));
    assert forall|m2: Method| m2 != m implies #[trigger] after.route_of(m2, path) is None by {
        assert(after.routes(m2) == before.routes(m2));
        assert(before.route_of(m2, path) is None);
    }
}

/// Registering a path a second time for the same method fails with
/// `DuplicateRoute`, and the handler bound first stays in effect.
pub proof fn law_duplicate_keeps_first<H: Copy>(
    before: RouterMap<H>,
    after: RouterMap<H>,
    m: Method,
    path: Seq<char>,
    first: H,
    h: H,
    r: Result<(), RouteError>,
)
    requires
        before.route_of(m, path) == Some(first),
        registered(before, after, m, path, h, r),
    ensures
        r == Err::<(), RouteError>(RouteError::DuplicateRoute),
        after.route_of(m, path) == Some(first),
{
    assert(after.route_of(m, path) == before.route_of(m, path));
}

/// The dispatcher: one route trie for each method that routes can be bound for.
pub struct RouterMap<H> {
    get_tree: RouteTree<H>,
    post_tree: RouteTree<H>,
}

impl<H: Copy> RouterMap<H> {
    /// The routes bound for `m`; none are ever bound for `Unsupported`.
    pub closed spec fn routes(&self, m: Method) -> Map<Seq<Seq<char>>, H> {
        match m {
            Method::GET => self.get_tree.routes(),
            Method::POST => self.post_tree.routes(),
            Method::Unsupported => Map::empty(),
        }
    }

    /// The handler bound for `m` at `path`, if any.
    pub open spec fn route_of(&self, m: Method, path: Seq<char>) -> Option<H> {
        match segments(path) {
            None => None,
            Some(segs) => if self.routes(m).dom().contains(segs) {
                Some(self.routes(m)[segs])
            } else {
                None
            },
        }
    }

    /// A dispatcher with no routes.
    pub fn new() -> (r: Self)
        ensures
            forall|m: Method| #[trigger] r.routes(m) == Map::<Seq<Seq<char>>, H>::empty(),
            forall|m: Method, p: Seq<char>| #[trigger] r.route_of(m, p) is None,
    {
        RouterMap { get_tree: RouteTree::root(), post_tree: RouteTree::root() }
    }

    fn regis_route(&mut self, method: Method, path: &[char], handler_func: H) -> (r: Result<
        (),
        RouteError,
    >)
        requires
            method != Method::Unsupported,
        ensures
            registered(*old(self), *final(self), method, path@, handler_func, r),
            match segments(path@) {
                None => r is Ok && final(self).routes(method) == old(self).routes(method),
                Some(segs) => if old(self).routes(method).dom().contains(segs) {
                    r == Err::<(), RouteError>(RouteError::DuplicateRoute) && final(self).routes(
                        method,
                    ) == old(self).routes(method)
                } else {
                    r is Ok && final(self).routes(method) == old(self).routes(method).insert(
                        segs,
                        handler_func,
                    )
                },
            },
            forall|m: Method| m != method ==> #[trigger] final(self).routes(m) == old(self).routes(m),
    {
        let r = match method {
            Method::GET => self.get_tree.register(path, handler_func),
            _ => self.post_tree.register(path, handler_func),
        };
        proof {
            assert forall|q: Seq<char>|
                #![trigger self.route_of(method, q)]
                self.route_of(method, q) == if r is Ok && segments(q) is Some && segments(q)
                    == segments(path@) {
                    Some(handler_func)
                } else {
                    old(self).route_of(method, q)
                } by {}
        }
        r
    }

    /// Binds `handler_func` for GET at `path`. Where a handler is bound
    /// there already the result is `DuplicateRoute` and the first stays.
    pub fn get(&mut self, path: String, handler_func: H) -> (r: Result<(), RouteError>)
        ensures
            match segments(path@) {
                None => r is Ok && final(self).routes(Method::GET) == old(self).routes(Method::GET),
                Some(segs) => if old(self).routes(Method::GET).dom().contains(segs) {
                    r == Err::<(), RouteError>(RouteError::DuplicateRoute) && final(self).routes(
                        Method::GET,
                    ) == old(self).routes(Method::GET)
                } else {
                    r is Ok && final(self).routes(Method::GET) == old(self).routes(
                        Method::GET,
                    ).insert(segs, handler_func)
                },
            },
            segments(path@) is Some ==> final(self).route_of(Method::GET, path@) == match old(
                self,
            ).route_of(Method::GET, path@) {
                Some(first) => Some(first),
                None => Some(handler_func),
            },
            forall|m: Method|
                m != Method::GET ==> #[trigger] final(self).routes(m) == old(self).routes(m),
            registered(*old(self), *final(self), Method::GET, path@, handler_func, r),
    {
        let p = chars_of(path.as_str());
        self.regis_route(Method::GET, &p, handler_func)
    }

    /// Binds `handler_func` for POST at `path`. Where a handler is bound
    /// there already the result is `DuplicateRoute` and the first stays.
    pub fn post(&mut self, path: String, handler_func: H) -> (r: Result<(), RouteError>)
        ensures
            match segments(path@) {
                None => r is Ok && final(self).routes(Method::POST) == old(self).routes(
                    Method::POST,
                ),
                Some(segs) => if old(self).routes(Method::POST).dom().contains(segs) {
                    r == Err::<(), RouteError>(RouteError::DuplicateRoute) && final(self).routes(
                        Method::POST,
                    ) == old(self).routes(Method::POST)
                } else {
                    r is Ok && final(self).routes(Method::POST) == old(self).routes(
                        Method::POST,
                    ).insert(segs, handler_func)
                },
            },
            segments(path@) is Some ==> final(self).route_of(Method::POST, path@) == match old(
                self,
            ).route_of(Method::POST, path@) {
                Some(first) => Some(first),
                None => Some(handler_func),
            },
            forall|m: Method|
                m != Method::POST ==> #[trigger] final(self).routes(m) == old(self).routes(m),
            registered(*old(self), *final(self), Method::POST, path@, handler_func, r),
    {
        let p = chars_of(path.as_str());
        self.regis_route(Method::POST, &p, handler_func)
    }

    fn execute_handler(&self, req: &HttpRequest, path: &[char]) -> (r: Option<H>)
        ensures
            r == self.route_of(req.method, path@),
    {
        match req.method {
            Method::GET => self.get_tree.lookup(path),
            Method::POST => self.post_tree.lookup(path),
            Method::Unsupported => None,
        }
    }

    /// The handler for `req`: the one bound for its method at `pre_path`
    /// followed by its resource path. None means the not-found fallback.
    pub fn handle_req(&self, pre_path: &str, req: &HttpRequest) -> (r: Option<H>)
        ensures
            r == self.route_of(req.method, pre_path@ + resource_path(req.resource)),
    {
        let mut path = chars_of(pre_path);
        let Resource::Path(p) = &req.resource;
        push_all(&mut path, &chars_of(p.as_str()));
        self.execute_handler(req, &path)
    }
}

} // verus!
