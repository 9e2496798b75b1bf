use axum::extract::FromRequestParts;
use axum::middleware::FromExtractorLayer;
use axum::Router as AxRouter;
use vstd::prelude::*;

verus! {

#[verifier::external_type_specification]
#[verifier::external_body]
#[verifier::reject_recursive_types(S)]
pub struct ExRouter<S>(AxRouter<S>);

#[verifier::external_type_specification]
#[verifier::external_body]
#[verifier::reject_recursive_types(E)]
#[verifier::reject_recursive_types(S)]
pub struct ExFromExtractorLayer<E, S>(FromExtractorLayer<E, S>);

/// What a router holds: the paths of its routes, the paths at which this
/// library nested sub-routers on it (where their fallbacks went too), and
/// whether this library built it from an empty router by nesting alone.
pub struct NodeModel {
    pub paths: Set<Seq<char>>,
    pub mounts: Set<Seq<char>>,
    pub built: bool,
}

/// What a served application holds: the paths of its routes, and the route
/// layers that this library put around all of them, innermost first, each
/// named by its position (layers a sub-router brought along are not counted).
pub struct RouteModel {
    pub paths: Set<Seq<char>>,
    pub layers: Seq<nat>,
}

/// The path at which a route of a sub-router nested at `prefix` is served;
/// a prefix that does not end with `/` takes the sub-router's `/` itself.
pub open spec fn join(prefix: Seq<char>, q: Seq<char>) -> Seq<char> {
    if q == seq!['/'] {
        prefix
    } else {
        prefix + q
    }
}

/// The paths of a sub-router nested at `prefix`.
pub open spec fn nested(prefix: Seq<char>, paths: Set<Seq<char>>) -> Set<Seq<char>> {
    paths.map(|q: Seq<char>| join(prefix, q))
}

/// A request path falls to the node mounted at `mount` when it is that path
/// or continues it after a `/`.
pub open spec fn under(mount: Seq<char>, path: Seq<char>) -> bool {
    path == mount || (mount + seq!['/']).is_prefix_of(path)
}

/// Every route path starts with `/`, as the path router demands.
pub open spec fn rooted(paths: Set<Seq<char>>) -> bool {
    forall|q: Seq<char>| #[trigger] paths.contains(q) ==> q.len() > 0 && q[0] == '/'
}

/// A router whose handlers take a state of type `S`, with the model of its routes.
#[verifier::reject_recursive_types(S)]
pub struct Node<S> {
    inner: AxRouter<S>,
    model: Ghost<NodeModel>,
}

impl<S> View for Node<S> {
    type V = NodeModel;

    closed spec fn view(&self) -> NodeModel {
        self.model@
    }
}

/// The application that is served: a router whose state was attached, the
/// model of its routes, and the state its handlers receive, if any.
pub struct Served<T> {
    inner: AxRouter,
    model: Ghost<RouteModel>,
    state: Ghost<Option<T>>,
}

impl<T> View for Served<T> {
    type V = RouteModel;

    closed spec fn view(&self) -> RouteModel {
        self.model@
    }
}

impl<T> Served<T> {
    /// The state handed to every handler.
    pub closed spec fn state(&self) -> Option<T> {
        self.state@
    }
}

impl<S: Clone + Send + Sync + 'static> Node<S> {
    /// Relies on axum::Router::route: every route path of a router starts
    /// with `/`. Nothing else is known of a router built elsewhere.
    #[verifier::external_body]
    pub fn from_router(r: AxRouter<S>) -> (n: Self)
        ensures
            rooted(n@.paths),
    {
        Node { inner: r, model: Ghost(arbitrary()) }
    }
}

impl<S> Node<S> {
    /// Hands back the router.
    pub fn into_router(self) -> AxRouter<S> {
        self.inner
    }
}

impl<T> Served<T> {
    /// Hands back the router, to be served.
    pub fn into_router(self) -> AxRouter {
        self.inner
    }
}

/// Relies on axum::Router::new: a router with no routes.
#[verifier::external_body]
pub(crate) fn empty_node<S: Clone + Send + Sync + 'static>() -> (r: Node<S>)
    ensures
        r@.paths == Set::<Seq<char>>::empty(),
        r@.mounts == Set::<Seq<char>>::empty(),
        r@.built,
{
    Node { inner: AxRouter::new(), model: Ghost(arbitrary()) }
}

/// Relies on axum::Router::new: an application with no routes and no state.
#[verifier::external_body]
pub(crate) fn empty_app<T>() -> (r: Served<T>)
    ensures
        r@.paths == Set::<Seq<char>>::empty(),
        r@.layers == Seq::<nat>::empty(),
        r.state() == None::<T>,
{
    Served { inner: AxRouter::new(), model: Ghost(arbitrary()), state: Ghost(arbitrary()) }
}

/// Relies on axum::Router::clone: another handle on the same shared routes.
#[verifier::external_body]
pub(crate) fn clone_node<S>(r: &Node<S>) -> (c: Node<S>)
    ensures
        c@ == r@,
{
    Node { inner: r.inner.clone(), model: Ghost(arbitrary()) }
}

/// Relies on axum::Router::clone: another handle on the same shared routes.
#[verifier::external_body]
pub(crate) fn clone_app<T>(r: &Served<T>) -> (c: Served<T>)
    ensures
        c@ == r@,
        c.state() == r.state(),
{
    Served { inner: r.inner.clone(), model: Ghost(arbitrary()), state: Ghost(arbitrary()) }
}

/// Relies on axum::Router::nest: each route `q` of `sub` is served at
/// `path` followed by `q` (at `path` itself for `/`). The path router panics
/// on a path holding `*` or not starting with `/`, and where a nested route
/// or fallback clashes with one already there. So `app` is one this library
/// built, whose fallbacks lie only at its mounts; `path` holds no capture
/// (`:`) that could clash with another; no route of `app` lies at or under
/// `path`, and no mount of `app` lies under `path` or above it.
#[verifier::external_body]
pub(crate) fn nest<S: Clone + Send + Sync + 'static>(app: Node<S>, path: &str, sub: Node<S>) -> (r: Node<S>)
    requires
        path@.len() > 1,
        path@[0] == '/',
        path@[path@.len() - 1] != '/',
        !path@.contains('*'),
        !path@.contains(':'),
        app@.built,
        forall|q: Seq<char>| #[trigger] app@.paths.contains(q) ==> !under(path@, q),
        forall|m: Seq<char>| #[trigger] app@.mounts.contains(m) ==> !under(path@, m) && !under(m, path@),
    ensures
        r@.paths == app@.paths.union(nested(path@, sub@.paths)),
        r@.mounts == app@.mounts.insert(path@),
        r@.built,
{
    Node { inner: app.inner.nest(path, sub.inner), model: Ghost(arbitrary()) }
}

/// Relies on axum::Router::with_state: every handler of `app` receives `state`;
/// the routes stay as they are.
#[verifier::external_body]
pub(crate) fn with_state<S: Clone + Send + Sync + 'static>(app: Node<S>, state: S) -> (r: Served<S>)
    ensures
        r@.paths == app@.paths,
        r@.layers == Seq::<nat>::empty(),
        r.state() == Some(state),
{
    Served { inner: app.inner.with_state(state), model: Ghost(arbitrary()), state: Ghost(arbitrary()) }
}

/// Relies on axum::Router::has_routes: whether any route was added.
#[verifier::external_body]
pub(crate) fn has_routes<T>(app: &Served<T>) -> (b: bool)
    ensures
        b == (app@.paths != Set::<Seq<char>>::empty()),
{
    app.inner.has_routes()
}

/// Relies on axum::Router::route_layer: wraps every route of `app` in `layer`,
/// outside the layers put there before; the paths stay as they are. It panics
/// on a router without routes.
#[verifier::external_body]
pub(crate) fn route_layer<T, E, S>(app: Served<T>, layer: FromExtractorLayer<E, S>) -> (r: Served<T>)
    where
        E: FromRequestParts<S> + 'static,
        S: Clone + Send + Sync + 'static,
    requires
        app@.paths != Set::<Seq<char>>::empty(),
    ensures
        r@.paths == app@.paths,
        r@.layers == app@.layers.push(app@.layers.len()),
        r.state() == app.state(),
{
    Served { inner: app.inner.route_layer(layer), model: Ghost(arbitrary()), state: Ghost(arbitrary()) }
}

} // verus!
