use std::rc::Rc;

use spellbook::{Context, Flow, Handler, Middleware, Outcome, Request, Response, Router};

#[derive(Clone)]
struct State {
    name: Option<String>,
}

struct Func(fn(Context<State>) -> Outcome);

impl Handler<State> for Func {
    fn call(&self, ctx: Context<State>) -> Outcome {
        (self.0)(ctx)
    }
}

struct NameMiddleware;

impl Middleware<State> for NameMiddleware {
    fn before(&self, context: Context<State>) -> Flow<State> {
        let new_state = State {
            name: Some(String::from("Walt Longmire")),
        };
        Flow::Next(context.with(new_state))
    }

    fn after(&self, result: Outcome) -> Outcome {
        result
    }
}

fn index(context: Context<State>) -> Outcome {
    let body = match context.state.name {
        Some(name) => format!("Hello {}!", name),
        None => String::from("Hello World!"),
    };
    Ok(Response::ok(body))
}

fn foo(_: Context<State>) -> Outcome {
    Ok(Response::ok(String::from("foo")))
}

fn bar(context: Context<State>) -> Outcome {
    let val: u32 = context.route.get("val").map_err(String::from)?;
    let encoded = context.route.encoded();
    let pairs: Vec<(String, String)> =
        serde_urlencoded::from_str(&encoded).map_err(|e| e.to_string())?;
    assert_eq!(pairs, vec![(String::from("val"), String::from("42"))]);
    Ok(Response::ok(format!("bar:{}", val)))
}

fn baz(_: Context<State>) -> Outcome {
    Ok(Response::ok(String::from("baz")))
}

#[derive(Debug)]
struct QueryParamTest {
    foo: Option<String>,
    bar: Option<u32>,
}

fn query_param_test(context: Context<State>) -> Outcome {
    let query = context.query_string().unwrap_or("");
    let pairs: Vec<(String, String)> =
        serde_urlencoded::from_str(query).map_err(|e| e.to_string())?;
    let mut params = QueryParamTest { foo: None, bar: None };
    for (k, v) in pairs {
        if k == "foo" {
            params.foo = Some(v);
        } else if k == "bar" {
            params.bar = Some(v.parse().map_err(|_| String::from("bar"))?);
        }
    }
    Ok(Response::ok(format!("{:?}", params)))
}

fn request(method: &str, uri: &str) -> Rc<Request> {
    let uri: hyper::Uri = uri.parse().unwrap();
    Rc::new(Request::new(
        String::from(method),
        String::from(uri.path()),
        uri.query().map(String::from),
    ))
}

fn do_test(router: &Router<Func, NameMiddleware>, path: &str, expected_body: String) {
    let state = State { name: None };
    let (result, _) = router.dispatch(state, request("GET", path));
    let response = result.unwrap();
    assert_eq!(response.body, expected_body);
}

#[test]
fn test_simple_handler() {
    let router = Router::new().get("/", Func(index)).unwrap();

    do_test(&router, "http://localhost/", String::from("Hello World!"));
}

#[test]
fn test_middleware() {
    let router = Router::new()
        .with(NameMiddleware)
        .get("/", Func(index))
        .unwrap();

    do_test(
        &router,
        "http://localhost/",
        String::from("Hello Walt Longmire!"),
    );
}

#[test]
fn test_routing() {
    let router = Router::new()
        .get("/foo", Func(foo))
        .unwrap()
        .get("/bar/:val", Func(bar))
        .unwrap()
        .get("/baz/*", Func(baz))
        .unwrap();

    do_test(&router, "http://localhost/foo", String::from("foo"));

    do_test(&router, "http://localhost/bar/42", String::from("bar:42"));

    do_test(
        &router,
        "http://localhost/baz/quux/x/y/z",
        String::from("baz"),
    );
}

#[test]
fn test_query_params() {
    let router = Router::new()
        .get("/query_param_test", Func(query_param_test))
        .unwrap();

    do_test(
        &router,
        "http://localhost/query_param_test?foo=thing&bar=42",
        String::from("QueryParamTest { foo: Some(\"thing\"), bar: Some(42) }"),
    );

    do_test(
        &router,
        "http://localhost/query_param_test",
        String::from("QueryParamTest { foo: None, bar: None }"),
    );
}
