use http_router::wire::route_key_part;
use http_router::wire::split_header_line;

#[test]
fn route_key_part_drops_protocol_token() {
    assert_eq!(route_key_part("GET / HTTP/1.1"), Some("GET /"));
}

#[test]
fn route_key_part_splits_at_last_space() {
    assert_eq!(route_key_part("GET /a b HTTP/1.1"), Some("GET /a b"));
}

#[test]
fn route_key_part_needs_a_space() {
    assert_eq!(route_key_part("nospace"), None);
    assert_eq!(route_key_part(""), None);
}

#[test]
fn header_line_splits_at_first_separator() {
    assert_eq!(
        split_header_line("Host: localhost"),
        Some((String::from("Host"), String::from("localhost")))
    );
    assert_eq!(
        split_header_line("A: b: c"),
        Some((String::from("A"), String::from("b: c")))
    );
}

#[test]
fn header_line_without_separator_is_rejected() {
    assert_eq!(split_header_line("no-separator"), None);
    assert_eq!(split_header_line("colon:but-no-space"), None);
    assert_eq!(split_header_line(""), None);
}
