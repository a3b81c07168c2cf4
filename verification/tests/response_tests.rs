use std::collections::HashMap;

use http_router::headers::HeaderMap;
use http_router::request::Request;
use http_router::response::Response;

#[test]
fn fresh_response_defaults() {
    let res = Response::new();
    assert!(!res.is_finished());
    assert_eq!(res.status(), 200);
    assert_eq!(res.body(), "");
    assert_eq!(res.headers().len(), 2);
    assert_eq!(res.headers().get("Server").unwrap(), "RUST-HTTP-9000");
    assert_eq!(res.headers().get("Content-Type").unwrap(), "application/json");
}

#[test]
fn default_equals_new() {
    let a = Response::default();
    assert!(!a.is_finished());
    assert_eq!(a.status(), 200);
    assert_eq!(a.body(), "");
    assert_eq!(a.headers().len(), 2);
}

#[test]
fn json_finishes_and_sets_content_type() {
    let mut res = Response::new();
    res.json(String::from("{}"));
    assert!(res.is_finished());
    assert_eq!(res.body(), "{}");
    assert_eq!(res.headers().get("Content-Type").unwrap(), "application/json");
    assert_eq!(res.headers().len(), 2);
}

#[test]
fn text_finishes_and_sets_content_type() {
    let mut res = Response::new();
    res.text(String::from("hi"));
    assert!(res.is_finished());
    assert_eq!(res.body(), "hi");
    assert_eq!(res.headers().get("Content-Type").unwrap(), "text/plain");
}

#[test]
fn html_finishes_and_sets_content_type() {
    let mut res = Response::new();
    res.html(String::from("<p>hi</p>"));
    assert!(res.is_finished());
    assert_eq!(res.body(), "<p>hi</p>");
    assert_eq!(res.headers().get("Content-Type").unwrap(), "text/html");
}

#[test]
fn set_status_is_honored_even_after_finishing() {
    let mut res = Response::new();
    res.set_status(201);
    assert_eq!(res.status(), 201);
    res.json(String::from("{}"));
    assert_eq!(res.status(), 201);
    res.set_status(404);
    assert_eq!(res.status(), 404);
    assert!(res.is_finished());
}

#[test]
fn terminal_calls_overwrite_body_last_write_wins() {
    let mut res = Response::new();
    res.json(String::from("{}"));
    res.text(String::from("plain"));
    assert!(res.is_finished());
    assert_eq!(res.body(), "plain");
    assert_eq!(res.headers().get("Content-Type").unwrap(), "text/plain");
}

#[test]
fn header_map_insert_and_replace() {
    let mut hm = HeaderMap::new();
    assert_eq!(hm.len(), 0);
    assert!(hm.get("X-One").is_none());
    hm.insert(String::from("X-One"), String::from("a"));
    hm.insert(String::from("X-Two"), String::from("b"));
    assert_eq!(hm.len(), 2);
    assert_eq!(hm.get("X-One").unwrap(), "a");
    hm.insert(String::from("X-One"), String::from("c"));
    assert_eq!(hm.len(), 2);
    assert_eq!(hm.get("X-One").unwrap(), "c");
    assert_eq!(hm.get("X-Two").unwrap(), "b");
}

#[test]
fn header_map_pairs_lists_each_name_once() {
    let mut hm = HeaderMap::new();
    hm.insert(String::from("A"), String::from("1"));
    hm.insert(String::from("B"), String::from("2"));
    hm.insert(String::from("A"), String::from("3"));
    let pairs = hm.pairs();
    assert_eq!(pairs.len(), 2);
    assert!(pairs.contains(&(String::from("A"), String::from("3"))));
    assert!(pairs.contains(&(String::from("B"), String::from("2"))));
}

#[test]
fn request_keeps_headers_as_received() {
    let mut headers = HashMap::new();
    headers.insert(String::from("Host"), String::from("localhost"));
    headers.insert(String::from("X-MiXeD"), String::from("kept"));
    let req = Request::new(headers);
    assert_eq!(req.get_headers().len(), 2);
    assert_eq!(req.get_headers().get("Host").unwrap(), "localhost");
    assert_eq!(req.get_headers().get("X-MiXeD").unwrap(), "kept");
}
