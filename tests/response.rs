use http_core::handler::{PageNotFoundHandler, StaticPageHandler, WebServiceHandler};
use http_core::response::HttpResponse;

fn default_headers() -> Vec<(String, String)> {
    vec![("Content-Type".to_string(), "text/html".to_string())]
}

#[test]
fn test_response_struct_creation_200() {
    let res = HttpResponse::new("200", None, Some("xxxx".into()));
    assert_eq!(res.version(), "HTTP/1.1");
    assert_eq!(res.status_code(), "200");
    assert_eq!(res.status_text(), "OK");
    assert_eq!(res.headers(), default_headers().as_slice());
    assert_eq!(res.body(), "xxxx");
}

#[test]
fn test_response_struct_creation_404() {
    let res = HttpResponse::new("404", None, Some("xxxx".into()));
    assert_eq!(res.version(), "HTTP/1.1");
    assert_eq!(res.status_code(), "404");
    assert_eq!(res.status_text(), "Not Found");
    assert_eq!(res.headers(), default_headers().as_slice());
    assert_eq!(res.body(), "xxxx");
}

#[test]
fn test_http_response_creation() {
    let res_expected = HttpResponse::new("404", None, Some("xxxx".into()));
    let res_str: String = res_expected.to_text();
    println!("{}", res_str);
    assert_eq!(
        res_str,
        "HTTP/1.1 404 Not Found\r\nContent-Type:text/html\r\n Content-Length: 4\r\n\r\nxxxx"
    );
}

#[test]
fn not_found_example_serializes() {
    let res = HttpResponse::new("404", None, Some("Not Found".into()));
    assert_eq!(
        res.to_text(),
        "HTTP/1.1 404 Not Found\r\nContent-Type:text/html\r\n Content-Length: 9\r\n\r\nNot Found"
    );
    let mut out: Vec<u8> = b"prefix".to_vec();
    res.send_response(&mut out);
    assert_eq!(
        out,
        b"prefixHTTP/1.1 404 Not Found\r\nContent-Type:text/html\r\n Content-Length: 9\r\n\r\nNot Found"
            .to_vec()
    );
}

#[test]
fn status_texts() {
    assert_eq!(HttpResponse::new("500", None, None).status_text(), "Internal Server Error");
    assert_eq!(HttpResponse::new("400", None, None).status_text(), "Bad Request");
    assert_eq!(HttpResponse::new("302", None, None).status_text(), "Bad Request");
    assert_eq!(HttpResponse::new("505", None, None).status_text(), "Bad Request");
}

#[test]
fn content_length_counts_bytes() {
    let res = HttpResponse::new("200", Some(vec![]), Some("héllo wörld, ünïcode body".into()));
    let text = res.to_text();
    assert_eq!(
        text,
        "HTTP/1.1 200 OK\r\n Content-Length: 29\r\n\r\nhéllo wörld, ünïcode body"
    );
    assert_eq!(res.header(), "");
}

#[test]
fn round_trip_recovers_parts() {
    let headers = vec![
        ("A".to_string(), "1".to_string()),
        ("B".to_string(), " two".to_string()),
    ];
    let res = HttpResponse::new("404", Some(headers), Some("line1\r\n\r\nline2".into()));
    let text = res.to_text();
    let (status, rest) = text.split_once("\r\n").unwrap();
    let mut parts = status.splitn(3, ' ');
    assert_eq!(parts.next(), Some("HTTP/1.1"));
    assert_eq!(parts.next(), Some("404"));
    assert_eq!(parts.next(), Some("Not Found"));
    let (head, body) = rest.split_once("\r\n\r\n").unwrap();
    assert_eq!(body, "line1\r\n\r\nline2");
    assert!(head.ends_with(" Content-Length: 14"));
    assert_eq!(res.header(), "A:1\r\nB: two\r\n");
}

#[test]
fn empty_body_has_zero_length() {
    let res = HttpResponse::new("200", None, None);
    assert_eq!(res.body(), "");
    assert_eq!(
        res.to_text(),
        "HTTP/1.1 200 OK\r\nContent-Type:text/html\r\n Content-Length: 0\r\n\r\n"
    );
}

#[test]
fn not_found_handler_builds_404() {
    let res = PageNotFoundHandler::handle(Some("<h1>gone</h1>".to_string()));
    assert_eq!(res.status_code(), "404");
    assert_eq!(res.status_text(), "Not Found");
    assert_eq!(res.body(), "<h1>gone</h1>");
}

#[test]
fn static_pages() {
    assert_eq!(StaticPageHandler::file_name("/"), Some("index.html".to_string()));
    assert_eq!(StaticPageHandler::file_name("/health"), Some("health.html".to_string()));
    assert_eq!(StaticPageHandler::file_name("/style.css"), Some("style.css".to_string()));
    assert_eq!(StaticPageHandler::file_name("nothing"), None);
    assert_eq!(StaticPageHandler::content_type("style.css"), "text/css");
    assert_eq!(StaticPageHandler::content_type("app.js"), "text/javascript");
    assert_eq!(StaticPageHandler::content_type("page.html"), "text/html");
    let res = StaticPageHandler::handle("app.js", "let x = 1;".to_string());
    assert_eq!(res.status_code(), "200");
    assert_eq!(
        res.headers(),
        &[("Content-Type".to_string(), "text/javascript".to_string())][..]
    );
    assert_eq!(res.body(), "let x = 1;");
}

#[test]
fn order_service_routes() {
    assert!(WebServiceHandler::is_orders_route("/api/shipping/orders"));
    assert!(!WebServiceHandler::is_orders_route("/api/shipping"));
    assert!(!WebServiceHandler::is_orders_route("/api/billing/orders"));
    let res = WebServiceHandler::handle("[]".to_string());
    assert_eq!(res.status_code(), "200");
    assert_eq!(
        res.headers(),
        &[("Content-Type".to_string(), "application/json".to_string())][..]
    );
    assert_eq!(res.body(), "[]");
}
