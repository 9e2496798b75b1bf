use crate::axum_ops::{clone_node, empty_node, nest, rooted, Node, NodeModel};
use crate::route::{same_table, api_prefix, app_paths, copy_routes, nest_routes, rooted_subs, segment_names, segments_of, slash, valid_segments};
use vstd::prelude::*;

verus! {

pub type AxumRouter = axum::Router;

pub type Route = (&'static str, Node<()>);

pub type Routes = Vec<Route>;

/// A controller hands out one `(segment, sub-router)` pair.
pub trait NestedRouter {
    fn get() -> Route;
}

/// A builder of a served application whose handlers share no state.
pub struct Router {
    app: Node<()>,
    pub address: String,
    pub routes: Routes,
}

impl Router {
    /// The address the builder binds to.
    pub closed spec fn address_view(&self) -> Seq<char> {
        self.address@
    }

    /// The route table, in registration order.
    pub closed spec fn table(&self) -> Seq<Route> {
        self.routes@
    }

    /// The routes of the application this snapshot serves.
    pub closed spec fn served(&self) -> NodeModel {
        self.app@
    }

    /// A builder at the default address, with no routes.
    pub fn new() -> (r: Self)
        ensures
            r.address_view() == "127.0.0.1:3000"@,
            r.table().len() == 0,
            r.served().paths == Set::<Seq<char>>::empty(),
    {
        Router { app: empty_node(), address: String::from_str("127.0.0.1:3000"), routes: Vec::new() }
    }

    /// A new snapshot: `routes` replaces the current table where given, and
    /// the application is built anew, each sub-router under
    /// `/api/<segment>` in registration order. The receiver is left as it was.
    ///
    /// Segments must be distinct, non-empty path components without `*` or
    /// `:`. The path router panics on `*` in a nesting path and where two
    /// nested trees overlap; it reads `:` as a capture, and two capture
    /// segments on one node clash however they are named, so a segment is
    /// always a literal name.
    pub fn setup(&mut self, routes: Option<Routes>) -> (r: Self)
        requires
            valid_segments(segments_of(match routes { Some(v) => v@, None => old(self).table() })),
            rooted_subs(match routes { Some(v) => v@, None => old(self).table() }),
        ensures
            *final(self) == *old(self),
            r.address_view() == old(self).address_view(),
            same_table(r.table(), match routes { Some(v) => v@, None => old(self).table() }),
            r.served().paths == app_paths(r.table()),
    {
        let ghost chosen = if routes.is_some() { routes.unwrap()@ } else { self.table() };
        let routes = match routes {
            Some(v) => v,
            None => copy_routes(&self.routes),
        };
        proof {
            assert(same_table(routes@, chosen));
            assert(segments_of(routes@) =~= segments_of(chosen));
            assert forall|i: int| 0 <= i < routes@.len() implies rooted(#[trigger] routes@[i].1@.paths) by {
                assert(routes@[i].1@ == chosen[i].1@);
            }
        }
        let api = nest_routes(&routes);
        proof {
            reveal_strlit("/api");
        }
        let app = nest(empty_node(), "/api", api);
        proof {
            assert("/api"@ =~= api_prefix());
            assert(app@.paths =~= app_paths(routes@));
        }
        Router { app, address: self.address.clone(), routes }
    }

    /// The top-level route segments, each rendered as `/<segment>`.
    pub fn route_names(&self) -> (r: Vec<String>)
        ensures
            r@.len() == self.table().len(),
            forall|i: int| 0 <= i < r@.len() ==> #[trigger] r@[i]@ == slash(self.table()[i].0@),
    {
        segment_names(&self.routes)
    }

    /// Hands over the address and the composed application, to be served.
    pub fn into_parts(self) -> (r: (String, Node<()>))
        ensures
            r.0@ == self.address_view(),
            r.1@ == self.served(),
    {
        (self.address, self.app)
    }
}

impl Clone for Router {
    fn clone(&self) -> (r: Self)
        ensures
            r.address_view() == self.address_view(),
            same_table(r.table(), self.table()),
            r.served() == self.served(),
    {
        Router { app: clone_node(&self.app), address: self.address.clone(), routes: copy_routes(&self.routes) }
    }
}

} // verus!
