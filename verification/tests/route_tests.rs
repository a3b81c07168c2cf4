use http_router::errors::RouteError;
use http_router::method::HttpMethod;
use http_router::route::Route;

#[test]
fn parse_round_trip_every_method() {
    let methods = [
        HttpMethod::Get,
        HttpMethod::Post,
        HttpMethod::Put,
        HttpMethod::Patch,
        HttpMethod::Delete,
        HttpMethod::Options,
    ];
    for m in methods {
        let line = format!("{} /thing", m.as_str());
        let parsed = Route::from_str(&line).unwrap();
        assert_eq!(parsed, Route { path: "/thing".into(), method: m });
    }
}

#[test]
fn parse_is_case_insensitive() {
    let a = Route::from_str("get /").unwrap();
    assert_eq!(a, Route { path: "/".into(), method: HttpMethod::Get });
    let b = Route::from_str("dElEtE /x").unwrap();
    assert_eq!(b, Route { path: "/x".into(), method: HttpMethod::Delete });
}

#[test]
fn parse_rejects_unknown_method() {
    assert_eq!(Route::from_str("FETCH /x"), Err(RouteError::InvalidMethod));
}

#[test]
fn parse_rejects_line_without_space() {
    assert_eq!(Route::from_str("GET"), Err(RouteError::MalformedRouteLine));
    assert_eq!(Route::from_str(""), Err(RouteError::MalformedRouteLine));
}

#[test]
fn path_is_taken_verbatim_after_first_space() {
    let r = Route::from_str("GET /a b c").unwrap();
    assert_eq!(r, Route { path: "/a b c".into(), method: HttpMethod::Get });
    let empty = Route::from_str("POST ").unwrap();
    assert_eq!(empty, Route { path: "".into(), method: HttpMethod::Post });
}

#[test]
fn method_names_are_canonical() {
    assert_eq!(HttpMethod::Get.as_str(), "GET");
    assert_eq!(HttpMethod::Post.as_str(), "POST");
    assert_eq!(HttpMethod::Put.as_str(), "PUT");
    assert_eq!(HttpMethod::Patch.as_str(), "PATCH");
    assert_eq!(HttpMethod::Delete.as_str(), "DELETE");
    assert_eq!(HttpMethod::Options.as_str(), "OPTIONS");
}

#[test]
fn method_from_str_options() {
    assert_eq!(HttpMethod::from_str("options"), Ok(HttpMethod::Options));
    assert_eq!(HttpMethod::from_str("OPTION"), Err(RouteError::InvalidMethod));
}

#[test]
fn routes_differing_only_in_method_are_distinct() {
    let a = Route { path: "/x".into(), method: HttpMethod::Get };
    let b = Route { path: "/x".into(), method: HttpMethod::Post };
    assert!(a != b);
    let c = Route { path: "/x".into(), method: HttpMethod::Get };
    assert_eq!(a, c);
}
