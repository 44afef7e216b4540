use std::cell::RefCell;
use std::rc::Rc;

use spellbook::{
    render, trim_path, Context, Flow, Handler, Middleware, Outcome, Path, Request, Response, Route,
    RouteError, Router, Tree,
};

type Log = Rc<RefCell<Vec<String>>>;

struct Named {
    name: &'static str,
    log: Log,
}

impl Handler<()> for Named {
    fn call(&self, _ctx: Context<()>) -> Outcome {
        self.log.borrow_mut().push(String::from(self.name));
        Ok(Response::ok(String::from(self.name)))
    }
}

struct Echo;

impl Handler<()> for Echo {
    fn call(&self, ctx: Context<()>) -> Outcome {
        let mut pairs = Vec::new();
        for key in ["id", "name", "rest"] {
            if let Some(v) = ctx.route.lookup(key) {
                pairs.push(format!("{}={}", key, v));
            }
        }
        Ok(Response::ok(pairs.join(",")))
    }
}

struct Tracer {
    name: &'static str,
    log: Log,
    answer: bool,
}

impl Middleware<()> for Tracer {
    fn before(&self, ctx: Context<()>) -> Flow<()> {
        self.log.borrow_mut().push(format!("{} before", self.name));
        if self.answer {
            Flow::Respond(Ok(Response::ok(format!("{} answered", self.name))))
        } else {
            Flow::Next(ctx)
        }
    }

    fn after(&self, result: Outcome) -> Outcome {
        self.log.borrow_mut().push(format!("{} after", self.name));
        result
    }
}

fn req(method: &str, path: &str) -> Rc<Request> {
    Rc::new(Request::new(String::from(method), String::from(path), None))
}

fn new_log() -> Log {
    Rc::new(RefCell::new(Vec::new()))
}

fn named(name: &'static str, log: &Log) -> Named {
    Named { name, log: log.clone() }
}

fn body(router: &Router<Named, Tracer>, method: &str, path: &str) -> (u16, String) {
    let (out, _) = router.dispatch((), req(method, path));
    let r = out.unwrap();
    (r.status, r.body)
}

#[test]
fn literal_route_answers_with_no_params() {
    let router: Router<Echo, Tracer> = Router::new().register("GET", "/a/b", Echo).ok().unwrap();
    let (h, params) = router.lookup("GET", "/a/b").unwrap();
    let _ = h;
    assert_eq!(params.lookup("id"), None);
    let (out, _) = router.dispatch((), req("GET", "/a/b"));
    assert_eq!(out.unwrap().body, "");
}

#[test]
fn literal_route_needs_exact_method_and_path() {
    let log = new_log();
    let router = Router::new().get("/foo", named("foo", &log)).ok().unwrap();
    assert_eq!(body(&router, "GET", "/foo"), (200, String::from("foo")));
    assert_eq!(body(&router, "POST", "/foo"), (404, String::from("404")));
    assert_eq!(body(&router, "GET", "/foo/x"), (404, String::from("404")));
    assert_eq!(body(&router, "GET", "/fo"), (404, String::from("404")));
    assert_eq!(body(&router, "get", "/foo"), (404, String::from("404")));
}

#[test]
fn trailing_slash_is_trimmed_once() {
    let log = new_log();
    let router = Router::new().get("/foo/", named("foo", &log)).ok().unwrap();
    assert_eq!(body(&router, "GET", "/foo"), (200, String::from("foo")));
    assert_eq!(body(&router, "GET", "foo/"), (200, String::from("foo")));
    assert_eq!(body(&router, "GET", "/foo//"), (404, String::from("404")));
}

#[test]
fn param_segment_is_recorded() {
    let router: Router<Echo, Tracer> = Router::new()
        .get("/users/:id/books/:name", Echo)
        .ok()
        .unwrap();
    let (out, _) = router.dispatch((), req("GET", "/users/42/books/dune"));
    assert_eq!(out.unwrap().body, "id=42,name=dune");
    let (_, params) = router.lookup("GET", "/users/7/books/x").unwrap();
    assert_eq!(params.get::<u32>("id"), Ok(7));
    assert_eq!(params.lookup("name").map(|s| s.as_str()), Some("x"));
}

#[test]
fn repeated_param_name_keeps_the_later_segment() {
    let router: Router<Echo, Tracer> = Router::new().get("/:id/:id", Echo).ok().unwrap();
    let (out, _) = router.dispatch((), req("GET", "/1/2"));
    assert_eq!(out.unwrap().body, "id=2");
}

#[test]
fn catch_all_takes_any_number_of_segments() {
    let log = new_log();
    let router = Router::new().get("/baz/*", named("baz", &log)).ok().unwrap();
    assert_eq!(body(&router, "GET", "/baz/x"), (200, String::from("baz")));
    assert_eq!(body(&router, "GET", "/baz/x/y/z"), (200, String::from("baz")));
    assert_eq!(body(&router, "GET", "/baz/x/"), (200, String::from("baz")));
    assert_eq!(body(&router, "GET", "/baz/"), (200, String::from("baz")));
    assert_eq!(body(&router, "GET", "/baz"), (200, String::from("baz")));
    assert_eq!(body(&router, "GET", "/ba"), (404, String::from("404")));
}

#[test]
fn own_route_wins_over_empty_catch_all() {
    let log = new_log();
    let router = Router::new()
        .get("/baz", named("exact", &log))
        .ok()
        .unwrap()
        .get("/baz/*", named("rest", &log))
        .ok()
        .unwrap();
    assert_eq!(body(&router, "GET", "/baz/"), (200, String::from("exact")));
    assert_eq!(body(&router, "GET", "/baz/q"), (200, String::from("rest")));
}

#[test]
fn catch_all_records_no_params() {
    let router: Router<Echo, Tracer> = Router::new().get("/files/*rest", Echo).ok().unwrap();
    let (out, _) = router.dispatch((), req("GET", "/files/a/b"));
    assert_eq!(out.unwrap().body, "");
}

#[test]
fn literal_beside_param_is_refused_either_way() {
    let log = new_log();
    let r = Router::<Named, Tracer>::new()
        .get("/foo/bar", named("lit", &log))
        .ok()
        .unwrap();
    assert_eq!(
        r.get("/foo/:id", named("param", &log)).err(),
        Some(RouteError::ParamConflictsWithLiterals)
    );
    let r = Router::<Named, Tracer>::new()
        .get("/foo/:id", named("param", &log))
        .ok()
        .unwrap();
    assert_eq!(
        r.get("/foo/bar", named("lit", &log)).err(),
        Some(RouteError::LiteralConflictsWithParams)
    );
}

#[test]
fn literal_route_is_preferred_over_param_in_lookup() {
    // Conflicting shapes cannot both be registered, so the only literal edge
    // at a node is the one that wins; a failed literal does not fall back.
    let log = new_log();
    let router = Router::new()
        .get("/foo/bar", named("lit", &log))
        .ok()
        .unwrap()
        .get("/foo/baz", named("other", &log))
        .ok()
        .unwrap();
    assert_eq!(body(&router, "GET", "/foo/bar"), (200, String::from("lit")));
    assert_eq!(body(&router, "GET", "/foo/qux"), (404, String::from("404")));
}

#[test]
fn duplicate_route_is_refused() {
    let log = new_log();
    let r = Router::<Named, Tracer>::new()
        .get("/foo", named("first", &log))
        .ok()
        .unwrap();
    assert_eq!(
        r.get("/foo", named("second", &log)).err(),
        Some(RouteError::DuplicateHandler)
    );
    let r = Router::<Named, Tracer>::new()
        .register("POST", "/a/:id", named("first", &log))
        .ok()
        .unwrap();
    assert_eq!(
        r.register("POST", "/a/:id/", named("second", &log)).err(),
        Some(RouteError::DuplicateHandler)
    );
}

#[test]
fn ambiguous_param_name_is_refused() {
    let log = new_log();
    let r = Router::<Named, Tracer>::new()
        .get("/foo/:id", named("a", &log))
        .ok()
        .unwrap();
    assert_eq!(
        r.get("/foo/:other", named("b", &log)).err(),
        Some(RouteError::AmbiguousParam)
    );
    let r = Router::<Named, Tracer>::new()
        .get("/foo/:id", named("a", &log))
        .ok()
        .unwrap();
    assert_eq!(
        r.get("/foo/*", named("b", &log)).err(),
        Some(RouteError::AmbiguousParam)
    );
}

#[test]
fn same_param_name_reuses_the_edge() {
    let router: Router<Echo, Tracer> = Router::new()
        .get("/foo/:id/a", Echo)
        .ok()
        .unwrap()
        .get("/foo/:id/b", Echo)
        .ok()
        .unwrap();
    let (out, _) = router.dispatch((), req("GET", "/foo/9/b"));
    assert_eq!(out.unwrap().body, "id=9");
}

#[test]
fn earlier_routes_survive_later_registrations() {
    let log = new_log();
    let router = Router::new()
        .get("/a", named("a", &log))
        .ok()
        .unwrap()
        .get("/a/b", named("ab", &log))
        .ok()
        .unwrap()
        .register("POST", "/a", named("post", &log))
        .ok()
        .unwrap();
    assert_eq!(body(&router, "GET", "/a"), (200, String::from("a")));
    assert_eq!(body(&router, "GET", "/a/b"), (200, String::from("ab")));
    assert_eq!(body(&router, "POST", "/a"), (200, String::from("post")));
}

#[test]
fn middleware_runs_as_an_onion() {
    let log = new_log();
    let router = Router::new()
        .with(Tracer { name: "m1", log: log.clone(), answer: false })
        .with(Tracer { name: "m2", log: log.clone(), answer: false })
        .get("/", named("h", &log))
        .ok()
        .unwrap();
    assert_eq!(body(&router, "GET", "/"), (200, String::from("h")));
    assert_eq!(
        *log.borrow(),
        vec!["m1 before", "m2 before", "h", "m2 after", "m1 after"]
    );
}

#[test]
fn middleware_that_answers_stops_the_rest() {
    let log = new_log();
    let router = Router::new()
        .with(Tracer { name: "m1", log: log.clone(), answer: false })
        .with(Tracer { name: "m2", log: log.clone(), answer: true })
        .with(Tracer { name: "m3", log: log.clone(), answer: false })
        .get("/", named("h", &log))
        .ok()
        .unwrap();
    assert_eq!(body(&router, "GET", "/"), (200, String::from("m2 answered")));
    assert_eq!(*log.borrow(), vec!["m1 before", "m2 before", "m1 after"]);
}

#[test]
fn not_found_passes_through_middleware() {
    let log = new_log();
    let router = Router::new()
        .with(Tracer { name: "m1", log: log.clone(), answer: false })
        .get("/", named("h", &log))
        .ok()
        .unwrap();
    assert_eq!(body(&router, "GET", "/missing"), (404, String::from("404")));
    assert_eq!(*log.borrow(), vec!["m1 before", "m1 after"]);
}

#[test]
fn failed_walk_does_not_fall_back_to_the_root() {
    let log = new_log();
    let router: Router<Named, Tracer> = Router::new().get("/", named("root", &log)).ok().unwrap();
    assert_eq!(body(&router, "GET", "/"), (200, String::from("root")));
    assert_eq!(body(&router, "GET", ""), (200, String::from("root")));
    assert_eq!(body(&router, "GET", "/x/y"), (404, String::from("404")));
    assert!(router.lookup("GET", "/x").is_none());
}

#[test]
fn empty_router_answers_not_found() {
    let router: Router<Named, Tracer> = Router::new();
    let (out, _) = router.dispatch((), req("GET", "/"));
    assert_eq!(out, Ok(Response::not_found()));
}

#[test]
fn derived_context_keeps_params_and_request() {
    let request = req("GET", "/x");
    let ctx = Context {
        state: 1u32,
        route: Rc::new(Route::from_params(vec![(String::from("a"), String::from("b"))])),
        req: Some(request.clone()),
    };
    let derived = ctx.with(2u32);
    assert_eq!(derived.state, 2);
    assert_eq!(ctx.state, 1);
    assert!(Rc::ptr_eq(&derived.route, &ctx.route));
    assert!(Rc::ptr_eq(derived.req.as_ref().unwrap(), &request));
    assert_eq!(derived.route.lookup("a").map(|s| s.as_str()), Some("b"));
}

#[test]
fn empty_context_has_no_params_and_no_request() {
    let ctx = Context::empty("one");
    assert_eq!(ctx.state, "one");
    assert!(ctx.req.is_none());
    assert_eq!(ctx.route.lookup("a"), None);
    assert_eq!(ctx.query_string(), None);
    let ctx2 = ctx.with("two");
    assert_eq!(ctx2.state, "two");
    assert!(ctx2.req.is_none());
}

#[test]
fn query_string_of_request() {
    let with_query = Rc::new(Request::new(
        String::from("GET"),
        String::from("/q"),
        Some(String::from("a=1")),
    ));
    let ctx = Context { state: (), route: Rc::new(Route::new()), req: Some(with_query) };
    assert_eq!(ctx.query_string(), Some("a=1"));
    let ctx = Context { state: (), route: Rc::new(Route::new()), req: Some(req("GET", "/q")) };
    assert_eq!(ctx.query_string(), Some(""));
}

#[test]
fn route_get_errors() {
    let route = Route::from_params(vec![
        (String::from("name"), String::from("Walt")),
        (String::from("age"), String::from("42")),
    ]);
    assert_eq!(route.get::<String>("name"), Ok(String::from("Walt")));
    assert_eq!(route.get::<u32>("age"), Ok(42));
    assert_eq!(route.get::<u32>("name"), Err("value wrong type"));
    assert_eq!(route.get::<u32>("missing"), Err("value does not exist"));
}

#[test]
fn route_later_pair_replaces_earlier() {
    let route = Route::from_params(vec![
        (String::from("a"), String::from("1")),
        (String::from("b"), String::from("2")),
        (String::from("a"), String::from("3")),
    ]);
    assert_eq!(route.lookup("a").map(|s| s.as_str()), Some("3"));
    assert_eq!(route.encoded(), "a=3&b=2");
}

#[test]
fn route_encoded_escapes() {
    let mut route = Route::new();
    assert_eq!(route.encoded(), "");
    route.insert(String::from("q"), String::from("a b&c"));
    assert_eq!(route.encoded(), "q=a+b%26c");
}

#[test]
fn trim_path_removes_one_slash_each_side() {
    assert_eq!(trim_path("/"), "");
    assert_eq!(trim_path(""), "");
    assert_eq!(trim_path("//"), "");
    assert_eq!(trim_path("/a/"), "a");
    assert_eq!(trim_path("a"), "a");
    assert_eq!(trim_path("//a//"), "/a/");
    assert_eq!(trim_path("/é/"), "é");
}

#[test]
fn render_turns_errors_into_500() {
    let r = render(Err(String::from("boom")));
    assert_eq!(r.status, 500);
    assert_eq!(r.body, "boom");
    let ok = Response::ok(String::from("fine"));
    assert_eq!(render(Ok(ok.clone())), ok);
    let nf = Response::not_found();
    assert_eq!((nf.status, nf.body.as_str()), (404, "404"));
}

#[test]
fn path_matches_segment_by_segment() {
    let pattern = String::from("/users/:id/:name");
    let p = Path::new(&pattern, "/users/42/walt").unwrap();
    assert_eq!(p.get::<u32>("id"), Ok(42));
    assert_eq!(p.get::<String>("name"), Ok(String::from("walt")));
    assert_eq!(p.get::<u32>("name"), Err("value wrong type"));
    assert_eq!(p.get::<u32>("nope"), Err("value does not exist"));
    assert!(Path::new(&pattern, "/users/42").is_none());
    assert!(Path::new(&pattern, "/people/42/walt").is_none());
    assert!(Path::new(&String::from("/a/*"), "/a/b").is_none());
    assert!(Path::new(&String::from("/a/*"), "/a/*").is_some());
}

#[test]
fn tree_operations() {
    let mut t: Tree<u8> = Tree::new();
    let a = t.node_add_child(0, String::from("a")).unwrap();
    assert_eq!(a, 1);
    assert_eq!(t.node_add_child(0, String::from("a")), Ok(1));
    assert_eq!(t.node_get_child(0, &String::from("a")), Some(1));
    assert_eq!(t.node_get_child(0, &String::from("b")), None);
    assert_eq!(t.node_set_wildcard(0, String::from(":x")), Err(RouteError::ParamConflictsWithLiterals));
    let w = t.node_set_wildcard(a, String::from(":x")).unwrap();
    assert_eq!(w, 2);
    assert_eq!(t.node_set_wildcard(a, String::from(":x")), Ok(2));
    assert_eq!(t.node_set_wildcard(a, String::from(":y")), Err(RouteError::AmbiguousParam));
    assert_eq!(t.node_add_child(a, String::from("b")), Err(RouteError::LiteralConflictsWithParams));
    assert_eq!(t.node_get_wildcard(a), Some(&(String::from(":x"), 2)));
    assert_eq!(t.node_get_wildcard(0), None);
    assert_eq!(t.node_set_handler(w, 7), Ok(()));
    assert_eq!(t.node_set_handler(w, 8), Err(RouteError::DuplicateHandler));
    assert_eq!(t.node_get_handler(w), Some(&7));
    assert_eq!(t.node_get_handler(a), None);
    assert_eq!(t.node_new(), 3);
}

struct Inspect {
    seen: Rc<RefCell<Option<Context<u32>>>>,
}

impl Handler<u32> for Inspect {
    fn call(&self, ctx: Context<u32>) -> Outcome {
        let out = Ok(Response::ok(format!("state {}", ctx.state)));
        *self.seen.borrow_mut() = Some(ctx);
        out
    }
}

struct NoMiddleware;

impl Middleware<u32> for NoMiddleware {
    fn before(&self, ctx: Context<u32>) -> Flow<u32> {
        Flow::Next(ctx)
    }

    fn after(&self, result: Outcome) -> Outcome {
        result
    }
}

#[test]
fn handler_gets_state_params_and_request() {
    let seen = Rc::new(RefCell::new(None));
    let router: Router<Inspect, NoMiddleware> = Router::new()
        .get("/items/:id", Inspect { seen: seen.clone() })
        .ok()
        .unwrap();
    let request = req("GET", "/items/17");
    let (out, _) = router.dispatch(5u32, request.clone());
    assert_eq!(out, Ok(Response::ok(String::from("state 5"))));
    let ctx = seen.borrow_mut().take().unwrap();
    assert_eq!(ctx.state, 5);
    assert_eq!(ctx.route.get::<u32>("id"), Ok(17));
    assert!(Rc::ptr_eq(ctx.req.as_ref().unwrap(), &request));
}

#[test]
fn handler_error_passes_through_plain_middleware() {
    struct Failing;
    impl Handler<u32> for Failing {
        fn call(&self, _ctx: Context<u32>) -> Outcome {
            Err(String::from("broken"))
        }
    }
    let router: Router<Failing, NoMiddleware> = Router::new()
        .with(NoMiddleware)
        .get("/", Failing)
        .ok()
        .unwrap();
    let (out, _) = router.dispatch(0u32, req("GET", "/"));
    assert_eq!(out, Err(String::from("broken")));
    assert_eq!(render(out).status, 500);
}
