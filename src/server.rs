//! The registration surface: a server and the route groups made from it.
use vstd::prelude::*;

use crate::request::{HttpRequest, Method};
use crate::router::{registered, segments, RouteError, RouterMap};
use crate::text::{
    chars_of, copy_chars, lemma_split_on_join, lemma_split_on_nonempty, push_all, split_on, string_of,
};

verus! {

/// A server: its address, and the routes registered for it.
pub struct Server<H> {
    pre_path: Vec<char>,
    socket_addr: String,
    router: RouterMap<H>,
}

/// A registration view that puts a fixed prefix before every path it
/// registers with a server.
pub struct ServerGroup {
    pre_path: Vec<char>,
}

impl<H: Copy> Server<H> {
    /// The prefix put before every path registered here; empty for a server.
    pub closed spec fn prefix(&self) -> Seq<char> {
        self.pre_path@
    }

    /// The address the server is to listen on.
    pub closed spec fn addr(&self) -> Seq<char> {
        self.socket_addr@
    }

    /// The routes registered with the server.
    pub closed spec fn router_view(&self) -> RouterMap<H> {
        self.router
    }

    /// A server for `socket_addr` with no routes.
    pub fn new(socket_addr: &str) -> (r: Self)
        ensures
            r.prefix() == Seq::<char>::empty(),
            r.addr() == socket_addr@,
            forall|m: Method, p: Seq<char>| #[trigger] r.router_view().route_of(m, p) is None,
    {
        let a = chars_of(socket_addr);
        Server { pre_path: Vec::new(), socket_addr: string_of(&a), router: RouterMap::new() }
    }

    /// The address the server is to listen on.
    pub fn socket_addr(&self) -> (r: &str)
        ensures
            r@ == self.addr(),
    {
        self.socket_addr.as_str()
    }

    /// The server's routes.
    pub fn router(&self) -> (r: &RouterMap<H>)
        ensures
            *r == self.router_view(),
    {
        &self.router
    }

    /// The handler for `req` at the server's prefix; None means the
    /// not-found fallback.
    pub fn dispatch(&self, req: &HttpRequest) -> (r: Option<H>)
        ensures
            r == self.router_view().route_of(
                req.method,
                self.prefix() + crate::request::resource_path(req.resource),
            ),
    {
        let p = string_of(&self.pre_path);
        self.router.handle_req(p.as_str(), req)
    }

    fn bind(&mut self, method: Method, full: Vec<char>, handler_func: H) -> (r: Result<(), RouteError>)
        requires
            method != Method::Unsupported,
        ensures
            final(self).prefix() == old(self).prefix(),
            final(self).addr() == old(self).addr(),
            registered(
                old(self).router_view(),
                final(self).router_view(),
                method,
                full@,
                handler_func,
                r,
            ),
    {
        let path = string_of(&full);
        if method == Method::GET {
            self.router.get(path, handler_func)
        } else {
            self.router.post(path, handler_func)
        }
    }

    /// Binds `handler_func` for GET at the prefix followed by `path`; where
    /// a handler is bound there already the result is `DuplicateRoute` and
    /// the first stays.
    pub fn get(&mut self, path: String, handler_func: H) -> (r: Result<(), RouteError>)
        ensures
            final(self).prefix() == old(self).prefix(),
            final(self).addr() == old(self).addr(),
            registered(
                old(self).router_view(),
                final(self).router_view(),
                Method::GET,
                old(self).prefix() + path@,
                handler_func,
                r,
            ),
    {
        let mut full = copy_chars(self.pre_path.as_slice());
        push_all(&mut full, &chars_of(path.as_str()));
        self.bind(Method::GET, full, handler_func)
    }

    /// Binds `handler_func` for POST at the prefix followed by `path`; where
    /// a handler is bound there already the result is `DuplicateRoute` and
    /// the first stays.
    pub fn post(&mut self, path: String, handler_func: H) -> (r: Result<(), RouteError>)
        ensures
            final(self).prefix() == old(self).prefix(),
            final(self).addr() == old(self).addr(),
            registered(
                old(self).router_view(),
                final(self).router_view(),
                Method::POST,
                old(self).prefix() + path@,
                handler_func,
                r,
            ),
    {
        let mut full = copy_chars(self.pre_path.as_slice());
        push_all(&mut full, &chars_of(path.as_str()));
        self.bind(Method::POST, full, handler_func)
    }

    /// A group whose prefix is this server's prefix, `/` and `child_path`.
    pub fn create_group(&self, child_path: String) -> (r: ServerGroup)
        ensures
            r.prefix() == self.prefix() + seq!['/'] + child_path@,
    {
        let mut p = copy_chars(self.pre_path.as_slice());
        p.push('/');
        push_all(&mut p, &chars_of(child_path.as_str()));
        ServerGroup { pre_path: p }
    }
}

impl ServerGroup {
    /// The prefix put before every path registered through this group.
    pub closed spec fn prefix(&self) -> Seq<char> {
        self.pre_path@
    }

    /// Binds `handler_func` for GET with `server` at this group's prefix
    /// followed by `path`.
    pub fn get<H: Copy>(&self, server: &mut Server<H>, path: String, handler_func: H) -> (r: Result<
        (),
        RouteError,
    >)
        ensures
            final(server).prefix() == old(server).prefix(),
            final(server).addr() == old(server).addr(),
            registered(
                old(server).router_view(),
                final(server).router_view(),
                Method::GET,
                self.prefix() + path@,
                handler_func,
                r,
            ),
    {
        let mut full = copy_chars(self.pre_path.as_slice());
        push_all(&mut full, &chars_of(path.as_str()));
        server.bind(Method::GET, full, handler_func)
    }

    /// Binds `handler_func` for POST with `server` at this group's prefix
    /// followed by `path`.
    pub fn post<H: Copy>(&self, server: &mut Server<H>, path: String, handler_func: H) -> (r:
        Result<(), RouteError>)
        ensures
            final(server).prefix() == old(server).prefix(),
            final(server).addr() == old(server).addr(),
            registered(
                old(server).router_view(),
                final(server).router_view(),
                Method::POST,
                self.prefix() + path@,
                handler_func,
                r,
            ),
    {
        let mut full = copy_chars(self.pre_path.as_slice());
        push_all(&mut full, &chars_of(path.as_str()));
        server.bind(Method::POST, full, handler_func)
    }

    /// A nested group whose prefix is this group's prefix, `/` and `child_path`.
    pub fn create_group(&self, child_path: String) -> (r: ServerGroup)
        ensures
            r.prefix() == self.prefix() + seq!['/'] + child_path@,
    {
        let mut p = copy_chars(self.pre_path.as_slice());
        p.push('/');
        push_all(&mut p, &chars_of(child_path.as_str()));
        ServerGroup { pre_path: p }
    }
}

/// A route registered through a group made with `child` from a server
/// without routes, at a path that starts with `/`, is found at `/`, `child`
/// and that path, and not at the path alone.
pub proof fn law_group_route<H: Copy>(
    before: RouterMap<H>,
    after: RouterMap<H>,
    child: Seq<char>,
    path: Seq<char>,
    h: H,
    r: Result<(), RouteError>,
)
    requires
        forall|m: Method, p: Seq<char>| #[trigger] before.route_of(m, p) is None,
        path.len() > 0,
        path[0] == '/',
        registered(before, after, Method::GET, seq!['/'] + child + path, h, r),
    ensures
        after.route_of(Method::GET, seq!['/'] + child + path) == Some(h),
        after.route_of(Method::GET, path) is None,
{
    let full = seq!['/'] + child + path;
    let u = path.drop_first();
    assert(path =~= Seq::<char>::empty() + seq!['/'] + u);
    assert(full =~= (Seq::<char>::empty() + seq!['/'] + child) + seq!['/'] + u);
    lemma_split_on_join(Seq::<char>::empty(), u, '/');
    lemma_split_on_join(Seq::<char>::empty(), child, '/');
    lemma_split_on_join(Seq::<char>::empty() + seq!['/'] + child, u, '/');
    lemma_split_on_nonempty(child, '/');
    lemma_split_on_nonempty(u, '/');
    assert(split_on(Seq::<char>::empty(), '/') =~= seq![Seq::<char>::empty()]);
    let sf = split_on(full, '/');
    let sp = split_on(path, '/');
    assert(sf.len() == 1 + split_on(child, '/').len() + split_on(u, '/').len());
    assert(sp.len() == 1 + split_on(u, '/').len());
    assert(full.len() > 1);
    assert(full != seq!['/']);
    assert(segments(full) == Some(sf.drop_first()));
    if path == seq!['/'] {
        assert(segments(path) == Some(Seq::<Seq<char>>::empty()));
        assert(sf.drop_first().len() > 0);
    } else {
        assert(sp.len() > 1);
        assert(segments(path) == Some(sp.drop_first()));
        assert(sf.drop_first().len() != sp.drop_first().len());
    }
    assert(segments(full) != segments(path));
    assert(before.route_of(Method::GET, full) is None);
    assert(before.route_of(Method::GET, path) is None);
}

} // verus!
