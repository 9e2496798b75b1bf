use crate::axum_ops::{clone_node, empty_node, join, nest, nested, rooted, under, Node};
use vstd::prelude::*;

verus! {

/// A path component may be used as a nesting segment when it is non-empty
/// and holds no character that the path router reads as syntax.
pub open spec fn is_segment(s: Seq<char>) -> bool {
    &&& s.len() > 0
    &&& forall|i: int| 0 <= i < s.len() ==> s[i] != '/' && s[i] != '*' && s[i] != ':'
}

/// The path at which a segment is attached on its parent node.
pub open spec fn slash(seg: Seq<char>) -> Seq<char> {
    seq!['/'] + seg
}

/// Builds `/<segment>`.
pub fn slash_path(seg: &str) -> (r: String)
    ensures
        r@ == slash(seg@),
{
    let mut r = String::from_str("/");
    proof { reveal_strlit("/"); }
    r.append(seg);
    r
}


/// The fixed prefix under which every registered segment is reachable.
pub open spec fn api_prefix() -> Seq<char> {
    seq!['/', 'a', 'p', 'i']
}

/// The full path at which a segment's sub-router is mounted.
pub open spec fn mount_of(seg: Seq<char>) -> Seq<char> {
    api_prefix() + slash(seg)
}

/// The segments of a route table, in registration order.
pub open spec fn segments_of<S>(routes: Seq<(&'static str, Node<S>)>) -> Seq<Seq<char>> {
    routes.map_values(|e: (&'static str, Node<S>)| e.0@)
}

/// Every segment is well formed and no two are equal.
pub open spec fn valid_segments(segs: Seq<Seq<char>>) -> bool {
    &&& forall|i: int| 0 <= i < segs.len() ==> is_segment(#[trigger] segs[i])
    &&& forall|i: int, j: int| 0 <= i < segs.len() && 0 <= j < segs.len() && i != j ==> segs[i] != segs[j]
}

/// Every sub-router of the table has rooted paths.
pub open spec fn rooted_subs<S>(routes: Seq<(&'static str, Node<S>)>) -> bool {
    forall|i: int| 0 <= i < routes.len() ==> rooted(#[trigger] routes[i].1@.paths)
}

/// The route paths of one node on which each entry's sub-router is nested
/// at `/<segment>`.
pub open spec fn table_paths<S>(routes: Seq<(&'static str, Node<S>)>) -> Set<Seq<char>>
    decreases routes.len(),
{
    if routes.len() == 0 {
        Set::empty()
    } else {
        table_paths(routes.drop_last()).union(nested(slash(routes.last().0@), routes.last().1@.paths))
    }
}

/// The route paths of the served tree: the table nested under `/api`.
pub open spec fn app_paths<S>(routes: Seq<(&'static str, Node<S>)>) -> Set<Seq<char>> {
    nested(api_prefix(), table_paths(routes))
}

/// A route of a sub-router nested at `p` lies at or under `p`.
pub proof fn lemma_join_under(p: Seq<char>, q: Seq<char>)
    requires
        q.len() > 0,
        q[0] == '/',
    ensures
        under(p, join(p, q)),
{
    if q != seq!['/'] {
        assert(q == seq!['/'] + q.subrange(1, q.len() as int));
        assert(p + q == (p + seq!['/']) + q.subrange(1, q.len() as int));
        assert((p + seq!['/']).is_prefix_of(join(p, q)));
    }
}

/// No path lies under the mounts of two different segments below one prefix.
pub proof fn lemma_disjoint_mounts(pre: Seq<char>, a: Seq<char>, b: Seq<char>, q: Seq<char>)
    requires
        is_segment(a),
        is_segment(b),
        a != b,
        under(pre + a, q),
    ensures
        !under(pre + b, q),
{
    let n: int = pre.len() as int;
    let ma = pre + a;
    let mb = pre + b;
    assert forall|k: int| 0 <= k < ma.len() implies q[k] == ma[k] by {
        if q != ma {
            assert((ma + seq!['/'])[k] == ma[k]);
        }
    }
    if under(mb, q) {
        assert forall|k: int| 0 <= k < mb.len() implies q[k] == mb[k] by {
            if q != mb {
                assert((mb + seq!['/'])[k] == mb[k]);
            }
        }
        if a.len() < b.len() {
            assert(q[n + a.len() as int] == b[a.len() as int]);
            if q == ma {
                assert(false);
            } else {
                assert((ma + seq!['/'])[ma.len() as int] == '/');
            }
        } else if b.len() < a.len() {
            assert(q[n + b.len() as int] == a[b.len() as int]);
            if q == mb {
                assert(false);
            } else {
                assert((mb + seq!['/'])[mb.len() as int] == '/');
            }
        } else {
            assert forall|k: int| 0 <= k < a.len() implies a[k] == b[k] by {
                assert(q[n + k] == ma[n + k]);
                assert(q[n + k] == mb[n + k]);
            }
            assert(a =~= b);
        }
    }
}

/// Each path of a table lies under the mount of one of its segments, and
/// comes from that entry's sub-router.
pub proof fn lemma_table_paths_origin<S>(routes: Seq<(&'static str, Node<S>)>, q: Seq<char>)
    requires
        rooted_subs(routes),
        table_paths(routes).contains(q),
    ensures
        exists|j: int, r: Seq<char>|
            0 <= j < routes.len() && #[trigger] routes[j].1@.paths.contains(r) && q == join(slash(routes[j].0@), r)
                && under(slash(routes[j].0@), q),
    decreases routes.len(),
{
    let init = routes.drop_last();
    let last = routes.last();
    if table_paths(init).contains(q) {
        assert(rooted_subs(init)) by {
            assert forall|i: int| 0 <= i < init.len() implies rooted(#[trigger] init[i].1@.paths) by {
                assert(init[i] == routes[i]);
            }
        }
        lemma_table_paths_origin(init, q);
        let (j, r) = choose|j: int, r: Seq<char>|
            0 <= j < init.len() && #[trigger] init[j].1@.paths.contains(r) && q == join(slash(init[j].0@), r)
                && under(slash(init[j].0@), q);
        assert(init[j] == routes[j]);
    } else {
        let r = choose|r: Seq<char>| last.1@.paths.contains(r) && join(slash(last.0@), r) == q;
        let j = routes.len() - 1;
        assert(routes[j] == last);
        assert(rooted(routes[j].1@.paths));
        lemma_join_under(slash(last.0@), r);
    }
}

/// Each route of each entry's sub-router is in the table's paths.
pub proof fn lemma_table_paths_complete<S>(routes: Seq<(&'static str, Node<S>)>, i: int, r: Seq<char>)
    requires
        0 <= i < routes.len(),
        routes[i].1@.paths.contains(r),
    ensures
        table_paths(routes).contains(join(slash(routes[i].0@), r)),
    decreases routes.len(),
{
    if i < routes.len() - 1 {
        let init = routes.drop_last();
        assert(init[i] == routes[i]);
        lemma_table_paths_complete(init, i, r);
    } else {
        assert(routes.last() == routes[i]);
        assert(nested(slash(routes[i].0@), routes[i].1@.paths).contains(join(slash(routes[i].0@), r)));
    }
}

/// Putting one prefix before a mount and a path keeps the path under the mount.
pub proof fn lemma_under_prefix(p: Seq<char>, m: Seq<char>, t: Seq<char>)
    requires
        under(m, t),
    ensures
        under(p + m, p + t),
{
    if t != m {
        let rest = t.subrange(m.len() as int + 1, t.len() as int);
        assert(t =~= (m + seq!['/']) + rest);
        assert(p + t =~= ((p + m) + seq!['/']) + rest);
    }
}

/// A path of the table comes from one entry, and is neither empty nor `/`.
proof fn lemma_table_path_shape<S>(routes: Seq<(&'static str, Node<S>)>, t: Seq<char>) -> (j: int)
    requires
        valid_segments(segments_of(routes)),
        rooted_subs(routes),
        table_paths(routes).contains(t),
    ensures
        0 <= j < routes.len(),
        under(slash(routes[j].0@), t),
        exists|r: Seq<char>| #[trigger] routes[j].1@.paths.contains(r) && t == join(slash(routes[j].0@), r),
        t.len() >= 2,
        t[0] == '/',
{
    lemma_table_paths_origin(routes, t);
    let (j, r) = choose|j: int, r: Seq<char>|
        0 <= j < routes.len() && #[trigger] routes[j].1@.paths.contains(r) && t == join(slash(routes[j].0@), r)
            && under(slash(routes[j].0@), t);
    assert(segments_of(routes)[j] == routes[j].0@);
    assert(is_segment(routes[j].0@));
    let m = slash(routes[j].0@);
    assert(t[0] == m[0]) by {
        if t != m {
            assert((m + seq!['/'])[0] == m[0]);
        }
    }
    j
}

/// Order preservation: each route `r` of the sub-router registered with a
/// segment is served at `/api/<segment>` followed by `r`, and every served path
/// at or under `/api/<segment>` is one of these, whatever the number and
/// order of the entries.
pub proof fn lemma_order_preserved<S>(routes: Seq<(&'static str, Node<S>)>, i: int)
    requires
        valid_segments(segments_of(routes)),
        rooted_subs(routes),
        0 <= i < routes.len(),
    ensures
        forall|r: Seq<char>| #[trigger] routes[i].1@.paths.contains(r)
            ==> app_paths(routes).contains(join(api_prefix(), join(slash(routes[i].0@), r))),
        forall|q: Seq<char>| #[trigger] app_paths(routes).contains(q) && under(mount_of(routes[i].0@), q)
            ==> exists|r: Seq<char>| #[trigger] routes[i].1@.paths.contains(r) && q == join(api_prefix(), join(slash(routes[i].0@), r)),
{
    assert forall|r: Seq<char>| #[trigger] routes[i].1@.paths.contains(r)
        implies app_paths(routes).contains(join(api_prefix(), join(slash(routes[i].0@), r))) by {
        lemma_table_paths_complete(routes, i, r);
    }
    assert forall|q: Seq<char>| #[trigger] app_paths(routes).contains(q) && under(mount_of(routes[i].0@), q)
        implies exists|r: Seq<char>| #[trigger] routes[i].1@.paths.contains(r) && q == join(api_prefix(), join(slash(routes[i].0@), r)) by {
        let t = choose|t: Seq<char>| table_paths(routes).contains(t) && join(api_prefix(), t) == q;
        let j = lemma_table_path_shape(routes, t);
        assert(t != seq!['/']) by {
            assert(t.len() >= 2);
        }
        assert(q == api_prefix() + t);
        lemma_under_prefix(api_prefix(), slash(routes[j].0@), t);
        let pre = api_prefix() + seq!['/'];
        assert(api_prefix() + slash(routes[j].0@) =~= pre + routes[j].0@);
        assert(mount_of(routes[i].0@) =~= pre + routes[i].0@);
        assert(segments_of(routes)[j] == routes[j].0@);
        assert(segments_of(routes)[i] == routes[i].0@);
        if j != i {
            lemma_disjoint_mounts(pre, routes[j].0@, routes[i].0@, q);
        }
    }
}

/// Prefix invariant: every served path starts with `/api/`, so no path
/// outside that prefix, such as `/<segment>` alone, is ever matched.
pub proof fn lemma_prefix_only<S>(routes: Seq<(&'static str, Node<S>)>, q: Seq<char>)
    requires
        valid_segments(segments_of(routes)),
        rooted_subs(routes),
        app_paths(routes).contains(q),
    ensures
        (api_prefix() + seq!['/']).is_prefix_of(q),
{
    let t = choose|t: Seq<char>| table_paths(routes).contains(t) && join(api_prefix(), t) == q;
    let j = lemma_table_path_shape(routes, t);
    assert(t != seq!['/']) by {
        assert(t.len() >= 2);
    }
    assert(q == api_prefix() + t);
    assert forall|k: int| 0 <= k < 5 implies (api_prefix() + seq!['/'])[k] == q[k] by {}
}

/// Empty-table idempotence: an empty table serves no path at all, whatever
/// was set up before.
pub proof fn lemma_empty_table<S>(routes: Seq<(&'static str, Node<S>)>)
    requires
        routes.len() == 0,
    ensures
        app_paths(routes) == Set::<Seq<char>>::empty(),
{
    assert(app_paths(routes) =~= Set::<Seq<char>>::empty());
}

/// Two tables with the same segments and the same sub-router routes, entry by entry.
pub open spec fn same_table<S>(a: Seq<(&'static str, Node<S>)>, b: Seq<(&'static str, Node<S>)>) -> bool {
    &&& a.len() == b.len()
    &&& forall|k: int| 0 <= k < a.len() ==> a[k].0 == b[k].0 && (#[trigger] a[k]).1@ == b[k].1@
}

/// Entry `j` of `b` has the segment and the routes of entry `i` of `a`.
pub open spec fn same_entry<S>(a: Seq<(&'static str, Node<S>)>, i: int, b: Seq<(&'static str, Node<S>)>, j: int) -> bool {
    a[i].0@ == b[j].0@ && a[i].1@.paths == b[j].1@.paths
}

/// Entry `i` of `a` stands somewhere in `b`.
pub open spec fn found_in<S>(a: Seq<(&'static str, Node<S>)>, i: int, b: Seq<(&'static str, Node<S>)>) -> bool {
    exists|j: int| 0 <= j < b.len() && #[trigger] same_entry(a, i, b, j)
}

/// `b` holds the entries of `a`, perhaps in another order.
pub open spec fn reordered<S>(a: Seq<(&'static str, Node<S>)>, b: Seq<(&'static str, Node<S>)>) -> bool {
    &&& forall|i: int| 0 <= i < a.len() ==> #[trigger] found_in(a, i, b)
    &&& forall|j: int| 0 <= j < b.len() ==> #[trigger] found_in(b, j, a)
}

/// A path is in a table's paths exactly when it is a route of some entry's
/// sub-router placed under that entry's segment.
proof fn lemma_table_paths_member<S>(routes: Seq<(&'static str, Node<S>)>, t: Seq<char>)
    ensures
        table_paths(routes).contains(t) <==> exists|j: int, r: Seq<char>|
            0 <= j < routes.len() && #[trigger] routes[j].1@.paths.contains(r) && t == join(slash(routes[j].0@), r),
    decreases routes.len(),
{
    if routes.len() > 0 {
        let init = routes.drop_last();
        lemma_table_paths_member(init, t);
        if exists|j: int, r: Seq<char>|
            0 <= j < routes.len() && #[trigger] routes[j].1@.paths.contains(r) && t == join(slash(routes[j].0@), r) {
            let (j, r) = choose|j: int, r: Seq<char>|
                0 <= j < routes.len() && #[trigger] routes[j].1@.paths.contains(r) && t == join(slash(routes[j].0@), r);
            lemma_table_paths_complete(routes, j, r);
        }
        if table_paths(init).contains(t) {
            let (j, r) = choose|j: int, r: Seq<char>|
                0 <= j < init.len() && #[trigger] init[j].1@.paths.contains(r) && t == join(slash(init[j].0@), r);
            assert(init[j] == routes[j]);
        } else if table_paths(routes).contains(t) {
            let r = choose|r: Seq<char>| routes.last().1@.paths.contains(r) && join(slash(routes.last().0@), r) == t;
            assert(routes[routes.len() - 1] == routes.last());
        }
    }
}

/// Reordering the table moves each sub-router with its segment: two orders
/// of the same entries serve the same paths.
pub proof fn lemma_reorder_same_paths<S>(a: Seq<(&'static str, Node<S>)>, b: Seq<(&'static str, Node<S>)>)
    requires
        reordered(a, b),
    ensures
        app_paths(a) == app_paths(b),
{
    assert forall|t: Seq<char>| table_paths(a).contains(t) implies table_paths(b).contains(t) by {
        lemma_table_paths_member(a, t);
        lemma_table_paths_member(b, t);
        let (i, r) = choose|i: int, r: Seq<char>|
            0 <= i < a.len() && #[trigger] a[i].1@.paths.contains(r) && t == join(slash(a[i].0@), r);
        assert(found_in(a, i, b));
        let j = choose|j: int| 0 <= j < b.len() && #[trigger] same_entry(a, i, b, j);
        assert(b[j].1@.paths.contains(r));
    }
    assert forall|t: Seq<char>| table_paths(b).contains(t) implies table_paths(a).contains(t) by {
        lemma_table_paths_member(a, t);
        lemma_table_paths_member(b, t);
        let (j, r) = choose|j: int, r: Seq<char>|
            0 <= j < b.len() && #[trigger] b[j].1@.paths.contains(r) && t == join(slash(b[j].0@), r);
        assert(found_in(b, j, a));
        let i = choose|i: int| 0 <= i < a.len() && #[trigger] same_entry(b, j, a, i);
        assert(a[i].1@.paths.contains(r));
    }
    assert(table_paths(a) =~= table_paths(b));
}

/// A request to `/<segment>` or below it, without the `/api` prefix, matches
/// no served route (unless the segment is `api` itself).
pub proof fn lemma_unprefixed_unmatched<S>(routes: Seq<(&'static str, Node<S>)>, seg: Seq<char>, rest: Seq<char>)
    requires
        valid_segments(segments_of(routes)),
        rooted_subs(routes),
        is_segment(seg),
        seg != seq!['a', 'p', 'i'],
        rest.len() == 0 || rest[0] == '/',
    ensures
        !app_paths(routes).contains(slash(seg) + rest),
{
    let q = slash(seg) + rest;
    if app_paths(routes).contains(q) {
        lemma_prefix_only(routes, q);
        let pre = api_prefix() + seq!['/'];
        assert(q.len() >= 5);
        assert(forall|k: int| 0 <= k < 5 ==> q[k] == pre[k]);
        assert(forall|k: int| 0 <= k < seg.len() ==> q[1 + k] == seg[k]);
        if seg.len() >= 4 {
            assert(q[4] == seg[3]);
        } else if seg.len() == 3 {
            assert(seg =~= seq!['a', 'p', 'i']);
        } else {
            assert(q[1 + seg.len() as int] == rest[0]);
        }
    }
}

/// Copies a route table: the same segments, each with another handle on its sub-router.
pub fn copy_routes<S>(routes: &Vec<(&'static str, Node<S>)>) -> (r: Vec<(&'static str, Node<S>)>)
    ensures
        r@.len() == routes@.len(),
        forall|k: int| 0 <= k < r@.len() ==> r@[k].0 == routes@[k].0 && (#[trigger] r@[k]).1@ == routes@[k].1@,
{
    let mut r: Vec<(&'static str, Node<S>)> = Vec::new();
    let mut i: usize = 0;
    while i < routes.len()
        invariant
            i <= routes@.len(),
            r@.len() == i,
            forall|k: int| 0 <= k < i ==> r@[k].0 == routes@[k].0 && (#[trigger] r@[k]).1@ == routes@[k].1@,
        decreases routes@.len() - i,
    {
        let seg: &'static str = routes[i].0;
        let sub = clone_node(&routes[i].1);
        r.push((seg, sub));
        i = i + 1;
    }
    r
}

/// Attaches each entry's sub-router at `/<segment>` on one fresh node, in
/// registration order.
pub fn nest_routes<S: Clone + Send + Sync + 'static>(routes: &Vec<(&'static str, Node<S>)>) -> (r: Node<S>)
    requires
        valid_segments(segments_of(routes@)),
        rooted_subs(routes@),
    ensures
        r@.paths == table_paths(routes@),
        r@.built,
{
    let mut api = empty_node();
    let mut i: usize = 0;
    while i < routes.len()
        invariant
            i <= routes@.len(),
            valid_segments(segments_of(routes@)),
            rooted_subs(routes@),
            api@.paths == table_paths(routes@.subrange(0, i as int)),
            api@.built,
            forall|m: Seq<char>| #[trigger] api@.mounts.contains(m)
                ==> exists|j: int| 0 <= j < i && m == slash(#[trigger] routes@[j].0@),
        decreases routes@.len() - i,
    {
        let seg: &'static str = routes[i].0;
        let sub = clone_node(&routes[i].1);
        let path = slash_path(seg);
        proof {
            let done = routes@.subrange(0, i as int);
            assert(is_segment(segments_of(routes@)[i as int]));
            assert(segments_of(routes@)[i as int] == seg@);
            if path@.contains('*') {
                let k = choose|k: int| 0 <= k < path@.len() && path@[k] == '*';
                assert(seg@[k - 1] == '*');
            }
            if path@.contains(':') {
                let k = choose|k: int| 0 <= k < path@.len() && path@[k] == ':';
                assert(seg@[k - 1] == ':');
            }
            assert(path@[path@.len() - 1] == seg@[seg@.len() - 1]);
            assert(rooted_subs(done)) by {
                assert forall|k: int| 0 <= k < done.len() implies rooted(#[trigger] done[k].1@.paths) by {
                    assert(done[k] == routes@[k]);
                }
            }
            assert forall|q: Seq<char>| #[trigger] api@.paths.contains(q) implies !under(path@, q) by {
                lemma_table_paths_origin(done, q);
                let (j, r) = choose|j: int, r: Seq<char>|
                    0 <= j < done.len() && #[trigger] done[j].1@.paths.contains(r) && q == join(slash(done[j].0@), r)
                        && under(slash(done[j].0@), q);
                assert(done[j] == routes@[j]);
                assert(segments_of(routes@)[j] == routes@[j].0@);
                assert(is_segment(routes@[j].0@));
                assert(routes@[j].0@ != seg@);
                lemma_disjoint_mounts(seq!['/'], routes@[j].0@, seg@, q);
            }
            assert forall|m: Seq<char>| #[trigger] api@.mounts.contains(m) implies !under(path@, m) && !under(m, path@) by {
                let j = choose|j: int| 0 <= j < i && m == slash(#[trigger] routes@[j].0@);
                assert(segments_of(routes@)[j] == routes@[j].0@);
                assert(is_segment(routes@[j].0@));
                assert(routes@[j].0@ != seg@);
                assert(under(m, m));
                lemma_disjoint_mounts(seq!['/'], routes@[j].0@, seg@, m);
                assert(under(path@, path@));
                lemma_disjoint_mounts(seq!['/'], seg@, routes@[j].0@, path@);
            }
        }
        api = nest(api, path.as_str(), sub);
        proof {
            let next = routes@.subrange(0, i as int + 1);
            assert(next.drop_last() =~= routes@.subrange(0, i as int));
            assert(next.last() == routes@[i as int]);
        }
        i = i + 1;
    }
    proof {
        assert(routes@.subrange(0, i as int) =~= routes@);
    }
    api
}

/// The top-level segments of a table, each rendered as `/<segment>`.
pub fn segment_names<S>(routes: &Vec<(&'static str, Node<S>)>) -> (r: Vec<String>)
    ensures
        r@.len() == routes@.len(),
        forall|i: int| 0 <= i < r@.len() ==> #[trigger] r@[i]@ == slash(routes@[i].0@),
{
    let mut r: Vec<String> = Vec::new();
    let mut i: usize = 0;
    while i < routes.len()
        invariant
            i <= routes@.len(),
            r@.len() == i,
            forall|k: int| 0 <= k < i ==> #[trigger] r@[k]@ == slash(routes@[k].0@),
        decreases routes@.len() - i,
    {
        r.push(slash_path(routes[i].0));
        i = i + 1;
    }
    r
}

} // verus!
