use std::cell::Cell;
use std::rc::Rc;

use http_router::method::HttpMethod;
use http_router::request::Request;
use http_router::response::Response;
use http_router::route::Route;
use http_router::router::Handler;
use http_router::router::Router;

struct CountingHandler {
    calls: Rc<Cell<u32>>,
    body: &'static str,
    finish: bool,
}

impl Handler for CountingHandler {
    fn handle(&self, _req: &Request, res: &mut Response) {
        self.calls.set(self.calls.get() + 1);
        if self.finish {
            res.json(String::from(self.body));
        }
    }
}

fn counting(calls: &Rc<Cell<u32>>, body: &'static str, finish: bool) -> CountingHandler {
    CountingHandler { calls: Rc::clone(calls), body, finish }
}

fn empty_request() -> Request {
    Request::new(std::collections::HashMap::new())
}

#[test]
fn one_route() {
    let mut router: Router<CountingHandler> = Router::new();
    router.get("/", vec![]);
    let routes = router.routes();
    assert_eq!(routes, vec![&Route { path: "/".into(), method: HttpMethod::Get }]);
}

#[test]
fn grouped_routes() {
    let mut router: Router<CountingHandler> = Router::new();

    router.get("/", vec![]);

    let mut user_router = Router::new_prefixed("/user");
    user_router.get("/", vec![]);
    user_router.post("/", vec![]);
    user_router.get("/:id", vec![]);

    router.join_other(user_router);

    let _routes = router.routes();

    println!("{}", router.formatted_routes())
}

#[test]
fn routes_come_out_sorted_by_path_then_method() {
    let mut router: Router<CountingHandler> = Router::new();
    router.post("/user", vec![]);
    router.get("/", vec![]);
    router.get("/user/:id", vec![]);
    let routes = router.routes();
    assert_eq!(
        routes,
        vec![
            &Route { path: "/".into(), method: HttpMethod::Get },
            &Route { path: "/user".into(), method: HttpMethod::Post },
            &Route { path: "/user/:id".into(), method: HttpMethod::Get },
        ]
    );
}

#[test]
fn method_order_breaks_path_ties() {
    let mut router: Router<CountingHandler> = Router::new();
    router.delete("/x", vec![]);
    router.get("/x", vec![]);
    router.post("/x", vec![]);
    let routes = router.routes();
    assert_eq!(
        routes,
        vec![
            &Route { path: "/x".into(), method: HttpMethod::Get },
            &Route { path: "/x".into(), method: HttpMethod::Post },
            &Route { path: "/x".into(), method: HttpMethod::Delete },
        ]
    );
}

#[test]
fn trailing_slash_is_a_distinct_path() {
    let mut router: Router<CountingHandler> = Router::new();
    router.get("/x", vec![]);
    router.get("/x/", vec![]);
    let routes = router.routes();
    assert_eq!(
        routes,
        vec![
            &Route { path: "/x".into(), method: HttpMethod::Get },
            &Route { path: "/x/".into(), method: HttpMethod::Get },
        ]
    );
}

#[test]
fn join_re_prefixes_exactly_once() {
    let mut a: Router<CountingHandler> = Router::new();
    a.get("/", vec![]);
    let mut b = Router::new_prefixed("/user");
    b.get("/", vec![]);
    b.post("/", vec![]);
    a.join_other(b);
    let routes = a.routes();
    assert_eq!(
        routes,
        vec![
            &Route { path: "/".into(), method: HttpMethod::Get },
            &Route { path: "/user/".into(), method: HttpMethod::Get },
            &Route { path: "/user/".into(), method: HttpMethod::Post },
        ]
    );
}

#[test]
fn join_collision_lets_merged_route_win() {
    let calls_a = Rc::new(Cell::new(0));
    let calls_b = Rc::new(Cell::new(0));
    let mut a: Router<CountingHandler> = Router::new();
    a.get("/user/", vec![counting(&calls_a, "from-a", true)]);
    let mut b = Router::new_prefixed("/user");
    b.get("/", vec![counting(&calls_b, "from-b", true)]);
    a.join_other(b);
    assert_eq!(a.routes().len(), 1);
    let route = Route { path: "/user/".into(), method: HttpMethod::Get };
    let mut res = Response::new();
    a.run_route_middleware_chain(&route, &empty_request(), &mut res);
    assert_eq!(calls_a.get(), 0);
    assert_eq!(calls_b.get(), 1);
    assert_eq!(res.body(), "from-b");
}

#[test]
fn second_registration_replaces_the_chain() {
    let calls_first = Rc::new(Cell::new(0));
    let calls_second = Rc::new(Cell::new(0));
    let mut router: Router<CountingHandler> = Router::new();
    router.get(
        "/x",
        vec![counting(&calls_first, "first", true), counting(&calls_first, "first", true)],
    );
    router.get("/x", vec![counting(&calls_second, "second", true)]);
    assert_eq!(router.routes().len(), 1);
    let route = Route { path: "/x".into(), method: HttpMethod::Get };
    let mut res = Response::new();
    router.run_route_middleware_chain(&route, &empty_request(), &mut res);
    assert_eq!(calls_first.get(), 0);
    assert_eq!(calls_second.get(), 1);
    assert_eq!(res.body(), "second");
}

#[test]
fn chain_short_circuits_after_terminal_handler() {
    let c1 = Rc::new(Cell::new(0));
    let c2 = Rc::new(Cell::new(0));
    let c3 = Rc::new(Cell::new(0));
    let mut router: Router<CountingHandler> = Router::new();
    router.get(
        "/",
        vec![counting(&c1, "done", true), counting(&c2, "late", true), counting(&c3, "late", true)],
    );
    let route = Route { path: "/".into(), method: HttpMethod::Get };
    let mut res = Response::new();
    router.run_route_middleware_chain(&route, &empty_request(), &mut res);
    assert_eq!(c1.get(), 1);
    assert_eq!(c2.get(), 0);
    assert_eq!(c3.get(), 0);
    assert_eq!(res.body(), "done");
}

#[test]
fn handlers_before_the_terminal_one_all_run() {
    let c1 = Rc::new(Cell::new(0));
    let c2 = Rc::new(Cell::new(0));
    let c3 = Rc::new(Cell::new(0));
    let mut router: Router<CountingHandler> = Router::new();
    router.get(
        "/",
        vec![counting(&c1, "", false), counting(&c2, "stop", true), counting(&c3, "late", true)],
    );
    let route = Route { path: "/".into(), method: HttpMethod::Get };
    let mut res = Response::new();
    router.run_route_middleware_chain(&route, &empty_request(), &mut res);
    assert_eq!((c1.get(), c2.get(), c3.get()), (1, 1, 0));
    assert_eq!(res.body(), "stop");
}

#[test]
fn unregistered_route_leaves_response_fresh() {
    let calls = Rc::new(Cell::new(0));
    let mut router: Router<CountingHandler> = Router::new();
    router.get("/present", vec![counting(&calls, "x", true)]);
    let route = Route { path: "/missing".into(), method: HttpMethod::Get };
    let mut res = Response::new();
    router.run_route_middleware_chain(&route, &empty_request(), &mut res);
    assert_eq!(calls.get(), 0);
    assert!(!res.is_finished());
    assert_eq!(res.status(), 200);
    assert_eq!(res.body(), "");
    assert_eq!(res.headers().len(), 2);
    assert_eq!(res.headers().get("Server").unwrap(), "RUST-HTTP-9000");
    assert_eq!(res.headers().get("Content-Type").unwrap(), "application/json");
}

#[test]
fn status_set_before_finishing_survives_short_circuit() {
    let mut router: Router<StatusThenJson> = Router::new();
    router.get(
        "/",
        vec![
            StatusThenJson { status: Some(418), body: None },
            StatusThenJson { status: None, body: Some("{}") },
            StatusThenJson { status: Some(404), body: None },
        ],
    );
    let route = Route { path: "/".into(), method: HttpMethod::Get };
    let mut res = Response::new();
    router.run_route_middleware_chain(&route, &empty_request(), &mut res);
    assert!(res.is_finished());
    assert_eq!(res.status(), 418);
    assert_eq!(res.body(), "{}");
    assert_eq!(res.headers().get("Content-Type").unwrap(), "application/json");
}

#[test]
fn dispatch_against_finished_response_runs_nothing() {
    let calls = Rc::new(Cell::new(0));
    let mut router: Router<CountingHandler> = Router::new();
    router.get("/", vec![counting(&calls, "x", true)]);
    let route = Route { path: "/".into(), method: HttpMethod::Get };
    let mut res = Response::new();
    res.json(String::from("already"));
    router.run_route_middleware_chain(&route, &empty_request(), &mut res);
    assert_eq!(calls.get(), 0);
    assert_eq!(res.body(), "already");
}

#[test]
fn formatted_routes_pads_methods_to_eight_columns() {
    let mut router: Router<CountingHandler> = Router::new();
    router.get("/", vec![]);
    router.post("/user", vec![]);
    router.delete("/user", vec![]);
    assert_eq!(
        router.formatted_routes(),
        "GET      /\nPOST     /user\nDELETE   /user\n"
    );
}

struct StatusThenJson {
    status: Option<u16>,
    body: Option<&'static str>,
}

impl Handler for StatusThenJson {
    fn handle(&self, _req: &Request, res: &mut Response) {
        if let Some(code) = self.status {
            res.set_status(code);
        }
        if let Some(body) = self.body {
            res.json(String::from(body));
        }
    }
}
