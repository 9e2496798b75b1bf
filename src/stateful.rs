use crate::axum_ops::{clone_app, empty_app, empty_node, has_routes, nest, route_layer, with_state, RouteModel, Served, Node};
use crate::route::{same_table, app_paths, copy_routes, nest_routes, rooted_subs, segment_names, segments_of, slash, valid_segments};
use axum::extract::FromRequestParts;
use axum::middleware::FromExtractorLayer;
use vstd::prelude::*;

verus! {

pub type AxumRouterWithState<T> = axum::Router<T>;

pub type StatefulRoute<T> = (&'static str, Node<T>);

pub type StatefulRoutes<T> = Vec<StatefulRoute<T>>;

pub type StatefulMiddleware<E, S> = FromExtractorLayer<E, S>;

/// A middleware that can build its extractor layer from the shared state.
pub trait Middleware<S> {
    fn get_extractor(state: S) -> StatefulMiddleware<Self, S> where Self: Sized;
}

/// A controller hands out one `(segment, sub-router)` pair.
pub trait StatefulNestedRouter<T> {
    fn get() -> StatefulRoute<T>;
}

/// The routes after one more middleware: a layer outside all the others; a
/// tree without routes has nothing to wrap and stays as it is.
pub open spec fn layered(m: RouteModel) -> RouteModel {
    if m.paths != Set::<Seq<char>>::empty() {
        RouteModel { paths: m.paths, layers: m.layers.push(m.layers.len()) }
    } else {
        m
    }
}

/// The layers in the order in which an inbound request meets them.
pub open spec fn inbound_order(m: RouteModel) -> Seq<nat> {
    m.layers.reverse()
}

/// The layers in the order in which the response passes them on the way out.
pub open spec fn outbound_order(m: RouteModel) -> Seq<nat> {
    m.layers
}

/// A builder of a served application whose handlers share a state of type `T`.
#[verifier::reject_recursive_types(T)]
pub struct Router<T> {
    app: Served<T>,
    pub address: String,
    pub routes: StatefulRoutes<T>,
}

impl<T> Router<T> {
    /// The address the builder binds to.
    pub closed spec fn address_view(&self) -> Seq<char> {
        self.address@
    }

    /// The route table, in registration order.
    pub closed spec fn table(&self) -> Seq<StatefulRoute<T>> {
        self.routes@
    }

    /// The routes of the application this snapshot serves.
    pub closed spec fn served(&self) -> RouteModel {
        self.app@
    }

    /// The state every handler of the served application receives.
    pub closed spec fn state(&self) -> Option<T> {
        self.app.state()
    }
}

impl<T: Clone + Send + Sync + 'static> Router<T> {
    /// A builder at the default address, with no routes and no state.
    pub fn new() -> (r: Self)
        ensures
            r.address_view() == "127.0.0.1:3000"@,
            r.table().len() == 0,
            r.served().paths == Set::<Seq<char>>::empty(),
            r.served().layers == Seq::<nat>::empty(),
            r.state() == None::<T>,
    {
        Router { app: empty_app(), address: String::from_str("127.0.0.1:3000"), routes: Vec::new() }
    }

    /// A new snapshot: `address` and `routes` replace the current ones where
    /// given, and the application is built anew from the table and `state`
    /// alone: each sub-router under `/api/<segment>` in registration order,
    /// `state` attached, no middleware.
    ///
    /// Segments must be distinct, non-empty path components without `*` or
    /// `:`. The path router panics on `*` in a nesting path and where two
    /// nested trees overlap; it reads `:` as a capture, and two capture
    /// segments on one node clash however they are named, so a segment is
    /// always a literal name.
    pub fn setup(&self, address: Option<String>, routes: Option<StatefulRoutes<T>>, state: T) -> (r: Self)
        requires
            valid_segments(segments_of(match routes { Some(v) => v@, None => self.table() })),
            rooted_subs(match routes { Some(v) => v@, None => self.table() }),
        ensures
            r.address_view() == match address {
                Some(a) => a@,
                None => self.address_view(),
            },
            same_table(r.table(), match routes { Some(v) => v@, None => self.table() }),
            r.served().paths == app_paths(r.table()),
            r.served().layers == Seq::<nat>::empty(),
            r.state() == Some(state),
    {
        let address = match address {
            Some(a) => a,
            None => self.address.clone(),
        };
        let ghost chosen = if routes.is_some() { routes.unwrap()@ } else { self.table() };
        let routes = match routes {
            Some(v) => v,
            None => copy_routes(&self.routes),
        };
        proof {
            assert(same_table(routes@, chosen));
            assert(segments_of(routes@) =~= segments_of(chosen));
            assert forall|i: int| 0 <= i < routes@.len() implies crate::axum_ops::rooted(#[trigger] routes@[i].1@.paths) by {
                assert(routes@[i].1@ == chosen[i].1@);
            }
        }
        let api = nest_routes(&routes);
        proof {
            reveal_strlit("/api");
        }
        let tree = nest(empty_node(), "/api", api);
        let app = with_state(tree, state);
        proof {
            assert("/api"@ =~= crate::route::api_prefix());
            assert(app@.paths =~= app_paths(routes@));
        }
        Router { app, address, routes }
    }

    /// A new snapshot whose application is this one wrapped in `middleware`,
    /// outside every layer added before.
    pub fn add_middleware<E, S>(&self, middleware: StatefulMiddleware<E, S>) -> (r: Self)
        where
            E: FromRequestParts<S> + 'static,
            S: Clone + Send + Sync + 'static,
        ensures
            r.address_view() == self.address_view(),
            same_table(r.table(), self.table()),
            r.served() == layered(self.served()),
            r.state() == self.state(),
    {
        let app = clone_app(&self.app);
        let app = if has_routes(&app) {
            route_layer(app, middleware)
        } else {
            app
        };
        Router { app, address: self.address.clone(), routes: copy_routes(&self.routes) }
    }

    /// The top-level route segments, each rendered as `/<segment>`.
    pub fn route_names(&self) -> (r: Vec<String>)
        ensures
            r@.len() == self.table().len(),
            forall|i: int| 0 <= i < r@.len() ==> #[trigger] r@[i]@ == slash(self.table()[i].0@),
    {
        segment_names(&self.routes)
    }

    /// Hands over the address and the composed application, to be served.
    pub fn into_parts(self) -> (r: (String, Served<T>))
        ensures
            r.0@ == self.address_view(),
            r.1@ == self.served(),
            r.1.state() == self.state(),
    {
        (self.address, self.app)
    }
}

impl<T> Clone for Router<T> {
    fn clone(&self) -> (r: Self)
        ensures
            r.address_view() == self.address_view(),
            same_table(r.table(), self.table()),
            r.served() == self.served(),
            r.state() == self.state(),
    {
        Router { app: clone_app(&self.app), address: self.address.clone(), routes: copy_routes(&self.routes) }
    }
}

/// Of two layers added one after the other to an application with routes,
/// the later one is outermost: an inbound request meets it first and the
/// response leaves through it last.
pub proof fn lemma_layering_order(m: RouteModel)
    requires
        m.paths != Set::<Seq<char>>::empty(),
    ensures
        inbound_order(layered(layered(m))) == seq![m.layers.len() + 1, m.layers.len()] + inbound_order(m),
        outbound_order(layered(layered(m))) == outbound_order(m) + seq![m.layers.len(), m.layers.len() + 1],
        layered(layered(m)).paths == m.paths,
{
    let n = m.layers.len();
    assert(layered(layered(m)).layers == m.layers.push(n).push(n + 1));
    assert(inbound_order(layered(layered(m))) =~= seq![n + 1, n] + inbound_order(m));
    assert(outbound_order(layered(layered(m))) =~= outbound_order(m) + seq![n, n + 1]);
}

} // verus!
