use std::collections::HashMap;

use http_core::request::{
    process_header_line, process_req_line, HttpRequest, Method, ParseError, Resource, Version,
};

#[test]
fn test_method_into() {
    let m: Method = "GET".into();
    assert_eq!(m, Method::GET);
}

#[test]
fn test_version_into() {
    let v: Version = "HTTP/1.1".into();
    assert_eq!(v, Version::V1_1);
}

// A header value keeps everything after the first colon, so the Host value
// holds its port too.
#[test]
fn test_http_request_into() {
    let s: String = String::from("GET /greeting HTTP/1.1\r\nHost: localhost:3000\r\nUser-Agent:curl/7.71\r\nAccept:*/*\r\n\r\n");
    let mut header_expected: HashMap<String, String> = HashMap::new();
    header_expected.insert("Host".into(), " localhost:3000".into());
    header_expected.insert("Accept".into(), "*/*".into());
    header_expected.insert("User-Agent".into(), "curl/7.71".into());
    let req: HttpRequest = HttpRequest::parse(&s).unwrap();
    assert_eq!(Method::GET, req.method);
    assert_eq!(Version::V1_1, req.version);
    assert_eq!(Resource::Path("/greeting".to_string()), req.resource);
    let header: HashMap<String, String> = req.header.iter().cloned().collect();
    assert_eq!(header_expected, header);
}

#[test]
fn method_tokens_map_to_variants() {
    assert_eq!(Method::from("POST"), Method::POST);
    assert_eq!(Method::from("PUT"), Method::Unsupported);
    assert_eq!(Method::from("get"), Method::Unsupported);
    assert_eq!(Method::from(""), Method::Unsupported);
    assert_eq!(Method::from_token("GET"), Method::GET);
}

#[test]
fn version_tokens_map_to_variants() {
    assert_eq!(Version::from("HTTP/2.0"), Version::Unsupported);
    assert_eq!(Version::from("HTTP/1.0"), Version::Unsupported);
    assert_eq!(Version::from_token("HTTP/1.1"), Version::V1_1);
}

#[test]
fn greeting_request_example() {
    let raw = "GET /greeting HTTP/1.1\r\nHost: localhost:3000\r\n\r\n";
    let req = HttpRequest::from_bytes(raw.as_bytes()).unwrap();
    assert_eq!(req.method, Method::GET);
    assert_eq!(req.version, Version::V1_1);
    assert_eq!(req.resource, Resource::Path("/greeting".to_string()));
    assert_eq!(req.header, vec![("Host".to_string(), " localhost:3000".to_string())]);
    assert_eq!(req.body, "");
}

#[test]
fn invalid_utf8_is_malformed_encoding() {
    let raw: Vec<u8> = vec![b'G', b'E', b'T', b' ', 0xff, 0xfe];
    assert_eq!(HttpRequest::from_bytes(&raw).unwrap_err(), ParseError::MalformedEncoding);
}

#[test]
fn short_request_line_is_malformed() {
    let err = HttpRequest::parse("GET HTTP/1.1\r\n\r\n").unwrap_err();
    assert_eq!(err, ParseError::MalformedRequestLine);
    assert_eq!(process_req_line("HTTP").unwrap_err(), ParseError::MalformedRequestLine);
}

#[test]
fn header_line_without_colon_is_malformed() {
    assert_eq!(process_header_line("no colon here").unwrap_err(), ParseError::MalformedHeaderLine);
    let (k, v) = process_header_line("Accept: a:b").unwrap();
    assert_eq!(k, "Accept");
    assert_eq!(v, " a:b");
}

#[test]
fn request_line_keeps_tokens() {
    let (m, r, v) = process_req_line("POST  /a/b   HTTP/1.0 extra").unwrap();
    assert_eq!(m, Method::POST);
    assert_eq!(r, Resource::Path("/a/b".to_string()));
    assert_eq!(v, Version::Unsupported);
}

#[test]
fn missing_request_line_is_lenient() {
    let req = HttpRequest::parse("Host: x\r\n\r\nhello").unwrap();
    assert_eq!(req.method, Method::Unsupported);
    assert_eq!(req.version, Version::V1_1);
    assert_eq!(req.resource, Resource::Path(String::new()));
    assert_eq!(req.body, "hello");
}

#[test]
fn body_lines_are_joined() {
    let req = HttpRequest::parse("POST /x HTTP/1.1\r\nA:1\r\n\r\nfirst\r\nsecond").unwrap();
    assert_eq!(req.method, Method::POST);
    assert_eq!(req.body, "first\nsecond");
}

#[test]
fn later_header_wins() {
    let req = HttpRequest::parse("GET / HTTP/1.1\r\nA:1\r\nA:2\r\n\r\n").unwrap();
    assert_eq!(req.header, vec![("A".to_string(), "2".to_string())]);
}

#[test]
fn empty_request_parses() {
    let req = HttpRequest::parse("").unwrap();
    assert_eq!(req.method, Method::Unsupported);
    assert!(req.header.is_empty());
    assert_eq!(req.body, "");
}
