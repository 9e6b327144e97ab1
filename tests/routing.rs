use http_core::handler::PageNotFoundHandler;
use http_core::request::{HttpRequest, Method};
use http_core::response::HttpResponse;
use http_core::router::{RouteError, RouteTree, RouterMap};
use http_core::server::Server;

type Handler = fn(&HttpRequest) -> HttpResponse;

fn hello(_req: &HttpRequest) -> HttpResponse {
    HttpResponse::new("200", None, Some("Hello".into()))
}

fn respond(router: &RouterMap<Handler>, pre_path: &str, req: &HttpRequest) -> HttpResponse {
    match router.handle_req(pre_path, req) {
        Some(h) => h(req),
        None => PageNotFoundHandler::handle(Some("Not Found".to_string())),
    }
}

#[test]
fn registered_route_is_found_for_its_method_only() {
    let mut map: RouterMap<u32> = RouterMap::new();
    assert_eq!(map.get("/a/b".to_string(), 7), Ok(()));
    let get = HttpRequest::parse("GET /a/b HTTP/1.1\r\n\r\n").unwrap();
    let post = HttpRequest::parse("POST /a/b HTTP/1.1\r\n\r\n").unwrap();
    assert_eq!(map.handle_req("", &get), Some(7));
    assert_eq!(map.handle_req("", &post), None);
    let other = HttpRequest::parse("GET /a HTTP/1.1\r\n\r\n").unwrap();
    assert_eq!(map.handle_req("", &other), None);
}

#[test]
fn empty_dispatcher_answers_not_found() {
    let map: RouterMap<Handler> = RouterMap::new();
    let req = HttpRequest::parse("GET /anything HTTP/1.1\r\n\r\n").unwrap();
    let res = respond(&map, "", &req);
    assert_eq!(res.status_code(), "404");
    assert_eq!(res.body(), "Not Found");
}

#[test]
fn bound_handler_is_invoked() {
    let mut map: RouterMap<Handler> = RouterMap::new();
    map.get("/ss".to_string(), hello).unwrap();
    let req = HttpRequest::parse("GET /ss HTTP/1.1\r\n\r\n").unwrap();
    assert_eq!(respond(&map, "", &req).body(), "Hello");
    let unsupported = HttpRequest::parse("PUT /ss HTTP/1.1\r\n\r\n").unwrap();
    assert_eq!(unsupported.method, Method::Unsupported);
    assert_eq!(respond(&map, "", &unsupported).status_code(), "404");
}

#[test]
fn duplicate_route_is_refused() {
    let mut map: RouterMap<u32> = RouterMap::new();
    assert_eq!(map.post("/x".to_string(), 1), Ok(()));
    assert_eq!(map.post("/x".to_string(), 2), Err(RouteError::DuplicateRoute));
    let req = HttpRequest::parse("POST /x HTTP/1.1\r\n\r\n").unwrap();
    assert_eq!(map.handle_req("", &req), Some(1));
    assert_eq!(map.get("/x".to_string(), 3), Ok(()));
}

#[test]
fn root_paths() {
    let mut tree: RouteTree<u32> = RouteTree::root();
    assert_eq!(tree.find_handler("/".to_string()), None);
    assert_eq!(tree.regis_route("".to_string(), 1), Ok(()));
    assert_eq!(tree.find_handler("/".to_string()), Some(1));
    assert_eq!(tree.regis_route("/".to_string(), 2), Err(RouteError::DuplicateRoute));
    assert_eq!(tree.regis_route("noslash".to_string(), 3), Ok(()));
    assert_eq!(tree.find_handler("noslash".to_string()), None);
    assert_eq!(tree.regis_route("/a/".to_string(), 4), Ok(()));
    assert_eq!(tree.find_handler("/a".to_string()), None);
    assert_eq!(tree.find_handler("/a/".to_string()), Some(4));
    let fresh: RouteTree<u32> = RouteTree::new();
    assert_eq!(fresh.find_handler("/a/".to_string()), None);
}

#[test]
fn shared_prefixes_in_trie() {
    let mut tree: RouteTree<u32> = RouteTree::new();
    assert_eq!(tree.regis_route("/a/b/c".to_string(), 1), Ok(()));
    assert_eq!(tree.regis_route("/a/b".to_string(), 2), Ok(()));
    assert_eq!(tree.regis_route("/a/d".to_string(), 3), Ok(()));
    assert_eq!(tree.find_handler("/a/b/c".to_string()), Some(1));
    assert_eq!(tree.find_handler("/a/b".to_string()), Some(2));
    assert_eq!(tree.find_handler("/a/d".to_string()), Some(3));
    assert_eq!(tree.find_handler("/a".to_string()), None);
    assert_eq!(tree.find_handler("/a/b/c/d".to_string()), None);
}

#[test]
fn group_routes_live_under_prefix() {
    let mut server: Server<u32> = Server::new("localhost:9977");
    assert_eq!(server.socket_addr(), "localhost:9977");
    let group = server.create_group("g".to_string());
    assert_eq!(group.get(&mut server, "/x".to_string(), 5), Ok(()));
    let at_group = HttpRequest::parse("GET /g/x HTTP/1.1\r\n\r\n").unwrap();
    let bare = HttpRequest::parse("GET /x HTTP/1.1\r\n\r\n").unwrap();
    assert_eq!(server.dispatch(&at_group), Some(5));
    assert_eq!(server.dispatch(&bare), None);
    assert_eq!(server.router().handle_req("", &at_group), Some(5));
    let nested = group.create_group("h".to_string());
    assert_eq!(nested.post(&mut server, "/y".to_string(), 6), Ok(()));
    let deep = HttpRequest::parse("POST /g/h/y HTTP/1.1\r\n\r\n").unwrap();
    assert_eq!(server.dispatch(&deep), Some(6));
    assert_eq!(server.get("/g/x".to_string(), 9), Err(RouteError::DuplicateRoute));
    assert_eq!(server.post("/z".to_string(), 8), Ok(()));
}
