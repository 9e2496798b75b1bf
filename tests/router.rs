use std::future::Future;
use std::pin::Pin;
use std::sync::{Arc, Mutex};

use axum::body::Body;
use axum::extract::{FromRequestParts, State};
use axum::http::request::Parts;
use axum::http::{Request, StatusCode};
use axum::middleware::from_extractor_with_state;
use axum::routing::get;
use tower::ServiceExt;

use nested_router::controller::get_controller_routes;
use nested_router::route::{segment_names, slash_path};
use nested_router::stateful::{self, StatefulNestedRouter, StatefulRoutes};
use nested_router::axum_ops::Node;
use nested_router::{Controller, Route, Router};

fn call(app: axum::Router, path: &str) -> (StatusCode, String) {
    let rt = tokio::runtime::Runtime::new().unwrap();
    rt.block_on(async move {
        let req = Request::builder().uri(path).body(Body::empty()).unwrap();
        let resp = app.oneshot(req).await.unwrap();
        let status = resp.status();
        let bytes = axum::body::to_bytes(resp.into_body(), usize::MAX).await.unwrap();
        (status, String::from_utf8(bytes.to_vec()).unwrap())
    })
}

fn named<S: Clone + Send + Sync + 'static>(name: &'static str) -> axum::Router<S> {
    axum::Router::new().route("/", get(move || async move { name })).route(
        "/deep",
        get(move || async move { format!("{}-deep", name) }),
    )
}

fn table<S: Clone + Send + Sync + 'static>(names: &[&'static str]) -> StatefulRoutes<S> {
    names.iter().map(|n| (*n, Node::from_router(named::<S>(n)))).collect()
}

#[test]
fn slash_path_prepends_a_slash() {
    assert_eq!(slash_path("users"), "/users");
    assert_eq!(slash_path("a"), "/a");
}

#[test]
fn new_builder_has_default_address_and_no_routes() {
    let b = stateful::Router::<u32>::new();
    assert_eq!(b.address, "127.0.0.1:3000");
    assert!(b.routes.is_empty());
    assert!(b.route_names().is_empty());
    let g = Router::new();
    assert_eq!(g.address, "127.0.0.1:3000");
    assert!(g.routes.is_empty());
}

#[test]
fn routes_are_nested_under_api_in_order() {
    let b = stateful::Router::<u32>::new().setup(None, Some(table(&["users", "items"])), 7);
    assert_eq!(b.route_names(), vec!["/users".to_string(), "/items".to_string()]);
    let (_, app) = b.into_parts();
    let app = app.into_router();
    assert_eq!(call(app.clone(), "/api/users"), (StatusCode::OK, "users".to_string()));
    assert_eq!(call(app.clone(), "/api/items"), (StatusCode::OK, "items".to_string()));
    assert_eq!(call(app, "/api/items/deep"), (StatusCode::OK, "items-deep".to_string()));
}

#[test]
fn reordering_the_table_keeps_each_segment_with_its_router() {
    let b = stateful::Router::<u32>::new().setup(None, Some(table(&["items", "users"])), 7);
    assert_eq!(b.route_names(), vec!["/items".to_string(), "/users".to_string()]);
    let (_, app) = b.into_parts();
    let app = app.into_router();
    assert_eq!(call(app.clone(), "/api/users"), (StatusCode::OK, "users".to_string()));
    assert_eq!(call(app, "/api/items"), (StatusCode::OK, "items".to_string()));
}

#[test]
fn segments_are_unreachable_without_the_api_prefix() {
    let b = stateful::Router::<u32>::new().setup(None, Some(table(&["users"])), 1);
    let (_, app) = b.into_parts();
    let app = app.into_router();
    assert_eq!(call(app.clone(), "/users").0, StatusCode::NOT_FOUND);
    assert_eq!(call(app.clone(), "/users/deep").0, StatusCode::NOT_FOUND);
    assert_eq!(call(app, "/api/users").0, StatusCode::OK);
}

#[test]
fn empty_table_matches_nothing_beneath_api() {
    let first = stateful::Router::<u32>::new().setup(None, Some(table(&["users"])), 1);
    let b = first.setup(None, Some(Vec::new()), 2);
    assert!(b.route_names().is_empty());
    let (_, app) = b.into_parts();
    let app = app.into_router();
    assert_eq!(call(app.clone(), "/api").0, StatusCode::NOT_FOUND);
    assert_eq!(call(app, "/api/users").0, StatusCode::NOT_FOUND);
}

#[test]
fn setup_overrides_address_only_when_given() {
    let b = stateful::Router::<u32>::new().setup(Some("0.0.0.0:8080".to_string()), None, 3);
    assert_eq!(b.address, "0.0.0.0:8080");
    let c = b.setup(None, Some(table(&["x"])), 4);
    assert_eq!(c.address, "0.0.0.0:8080");
    assert_eq!(c.route_names(), vec!["/x".to_string()]);
}

#[test]
fn setup_and_middleware_leave_the_receiver_unchanged() {
    let log: Log = Arc::new(Mutex::new(Vec::new()));
    let b = stateful::Router::<u32>::new().setup(None, Some(table(&["users"])), 5);
    let c = b.setup(Some("10.0.0.1:1".to_string()), Some(table(&["items"])), 6);
    let d = b.add_middleware(from_extractor_with_state::<First, Log>(log.clone()));
    assert_eq!(b.address, "127.0.0.1:3000");
    assert_eq!(b.route_names(), vec!["/users".to_string()]);
    assert_eq!(c.route_names(), vec!["/items".to_string()]);
    assert_eq!(d.route_names(), vec!["/users".to_string()]);
    let (_, app) = b.into_parts();
    let app = app.into_router();
    assert_eq!(call(app, "/api/users"), (StatusCode::OK, "users".to_string()));
    assert!(log.lock().unwrap().is_empty());
}

#[test]
fn every_handler_sees_the_state_given_to_setup() {
    let echo = || axum::Router::<String>::new().route("/", get(|State(s): State<String>| async move { s }));
    let routes: StatefulRoutes<String> = vec![("a", Node::from_router(echo())), ("b", Node::from_router(echo()))];
    let b = stateful::Router::<String>::new().setup(None, Some(routes), "shared".to_string());
    let (_, app) = b.into_parts();
    let app = app.into_router();
    assert_eq!(call(app.clone(), "/api/a"), (StatusCode::OK, "shared".to_string()));
    assert_eq!(call(app, "/api/b"), (StatusCode::OK, "shared".to_string()));
}

type Log = Arc<Mutex<Vec<String>>>;

struct First;
struct Second;

fn record(state: &Log, mark: &str) {
    state.lock().unwrap().push(mark.to_string());
}

impl FromRequestParts<Log> for First {
    type Rejection = StatusCode;

    fn from_request_parts<'a, 'b, 'c>(
        _parts: &'a mut Parts,
        state: &'b Log,
    ) -> Pin<Box<dyn Future<Output = Result<Self, StatusCode>> + Send + 'c>>
    where
        'a: 'c,
        'b: 'c,
        Self: 'c,
    {
        record(state, "M1-in");
        Box::pin(async { Ok(First) })
    }
}

impl FromRequestParts<Log> for Second {
    type Rejection = StatusCode;

    fn from_request_parts<'a, 'b, 'c>(
        _parts: &'a mut Parts,
        state: &'b Log,
    ) -> Pin<Box<dyn Future<Output = Result<Self, StatusCode>> + Send + 'c>>
    where
        'a: 'c,
        'b: 'c,
        Self: 'c,
    {
        record(state, "M2-in");
        Box::pin(async { Ok(Second) })
    }
}

#[test]
fn later_middleware_sees_the_request_first() {
    let log: Log = Arc::new(Mutex::new(Vec::new()));
    let handler_log = log.clone();
    let sub = axum::Router::<u32>::new().route(
        "/",
        get(move || {
            let l = handler_log.clone();
            async move {
                record(&l, "handler");
                "ok"
            }
        }),
    );
    let b = stateful::Router::<u32>::new()
        .setup(None, Some(vec![("users", Node::from_router(sub))]), 9)
        .add_middleware(from_extractor_with_state::<First, Log>(log.clone()))
        .add_middleware(from_extractor_with_state::<Second, Log>(log.clone()));
    let (_, app) = b.into_parts();
    let app = app.into_router();
    assert_eq!(call(app, "/api/users"), (StatusCode::OK, "ok".to_string()));
    assert_eq!(*log.lock().unwrap(), vec!["M2-in".to_string(), "M1-in".to_string(), "handler".to_string()]);
}

#[test]
fn middleware_on_a_tree_without_routes_is_a_no_op() {
    let log: Log = Arc::new(Mutex::new(Vec::new()));
    let b = stateful::Router::<u32>::new().add_middleware(from_extractor_with_state::<First, Log>(log.clone()));
    assert_eq!(b.address, "127.0.0.1:3000");
    let (_, app) = b.into_parts();
    let app = app.into_router();
    assert_eq!(call(app, "/api").0, StatusCode::NOT_FOUND);
    assert!(log.lock().unwrap().is_empty());
}

#[test]
fn generic_setup_nests_and_keeps_the_receiver() {
    let mut b = Router::new();
    let routes: Vec<Route> = vec![("users", Node::from_router(named::<()>("users"))), ("items", Node::from_router(named::<()>("items")))];
    let c = b.setup(Some(routes));
    assert!(b.routes.is_empty());
    assert_eq!(c.route_names(), vec!["/users".to_string(), "/items".to_string()]);
    let mut c2 = c.clone();
    let d = c2.setup(None);
    assert_eq!(d.route_names(), vec!["/users".to_string(), "/items".to_string()]);
    let (address, app) = d.into_parts();
    let app = app.into_router();
    assert_eq!(address, "127.0.0.1:3000");
    assert_eq!(call(app.clone(), "/api/users/deep"), (StatusCode::OK, "users-deep".to_string()));
    assert_eq!(call(app, "/items").0, StatusCode::NOT_FOUND);
}

#[test]
fn segment_names_render_each_segment() {
    let routes = table::<()>(&["a", "bc"]);
    assert_eq!(segment_names(&routes), vec!["/a".to_string(), "/bc".to_string()]);
}

#[derive(Clone)]
struct Users;

impl StatefulNestedRouter<Users> for Users {
    fn get() -> (&'static str, Node<Users>) {
        ("users", Node::from_router(named::<Users>("users")))
    }
}

#[test]
fn controllers_give_one_route_each() {
    let routes = get_controller_routes(vec![Controller(Users), Controller(Users)]);
    assert_eq!(routes.len(), 2);
    assert_eq!(routes[0].0, "users");
    assert_eq!(routes[1].0, "users");
}
