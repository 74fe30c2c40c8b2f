//! Connectivity in an undirected graph given by a set of edges.

use vstd::prelude::*;

verus! {

/// True if an edge joins `a` and `b`, in either direction.
pub open spec fn adjacent(edges: Set<(int, int)>, a: int, b: int) -> bool {
    edges.contains((a, b)) || edges.contains((b, a))
}

/// True if `path` is a walk: it has a first vertex, and an edge joins each
/// vertex to the next.
pub open spec fn is_path(edges: Set<(int, int)>, path: Seq<int>) -> bool {
    path.len() >= 1 && forall|k: int|
        0 <= k < path.len() - 1 ==> adjacent(edges, #[trigger] path[k], path[k + 1])
}

/// True if a walk leads from `a` to `b`. Every vertex is connected to itself.
#[verifier::opaque]
pub open spec fn connected(edges: Set<(int, int)>, a: int, b: int) -> bool {
    exists|path: Seq<int>| is_path(edges, path) && path.first() == a && path.last() == b
}

/// Every vertex is connected to itself.
pub proof fn lemma_connected_reflexive(edges: Set<(int, int)>, a: int)
    ensures
        connected(edges, a, a),
{
    reveal(connected);
    let path = seq![a];
    assert(is_path(edges, path) && path.first() == a && path.last() == a);
}

/// A walk can be extended by one edge.
pub proof fn lemma_connected_step(edges: Set<(int, int)>, a: int, c: int, b: int)
    requires
        connected(edges, a, c),
        adjacent(edges, c, b),
    ensures
        connected(edges, a, b),
{
    reveal(connected);
    let path = choose|path: Seq<int>| is_path(edges, path) && path.first() == a && path.last() == c;
    let longer = path.push(b);
    assert forall|k: int| 0 <= k < longer.len() - 1 implies adjacent(
        edges,
        #[trigger] longer[k],
        longer[k + 1],
    ) by {
        if k < path.len() - 1 {
            assert(longer[k] == path[k] && longer[k + 1] == path[k + 1]);
        }
    }
    assert(is_path(edges, longer) && longer.first() == a && longer.last() == b);
}

/// Walks compose.
pub proof fn lemma_connected_transitive(edges: Set<(int, int)>, a: int, b: int, c: int)
    requires
        connected(edges, a, b),
        connected(edges, b, c),
    ensures
        connected(edges, a, c),
{
    reveal(connected);
    let second = choose|path: Seq<int>|
        is_path(edges, path) && path.first() == b && path.last() == c;
    lemma_append_walk(edges, a, second, second.len() as int);
}

/// From a vertex connected to the start of a walk, every vertex of the walk
/// can be reached.
proof fn lemma_append_walk(edges: Set<(int, int)>, a: int, walk: Seq<int>, n: int)
    requires
        is_path(edges, walk),
        connected(edges, a, walk.first()),
        1 <= n <= walk.len(),
    ensures
        connected(edges, a, walk[n - 1]),
    decreases n,
{
    if n > 1 {
        lemma_append_walk(edges, a, walk, n - 1);
        assert(adjacent(edges, walk[n - 2], walk[n - 2 + 1]));
        lemma_connected_step(edges, a, walk[n - 2], walk[n - 1]);
    }
}

/// A walk can be walked backwards.
pub proof fn lemma_connected_symmetric(edges: Set<(int, int)>, a: int, b: int)
    requires
        connected(edges, a, b),
    ensures
        connected(edges, b, a),
{
    reveal(connected);
    let path = choose|path: Seq<int>| is_path(edges, path) && path.first() == a && path.last() == b;
    lemma_reverse_walk(edges, path, path.len() as int);
}

/// The last vertex of a walk reaches each of the walk's vertices.
proof fn lemma_reverse_walk(edges: Set<(int, int)>, walk: Seq<int>, n: int)
    requires
        is_path(edges, walk),
        1 <= n <= walk.len(),
    ensures
        connected(edges, walk.last(), walk[walk.len() - n]),
    decreases n,
{
    if n == 1 {
        lemma_connected_reflexive(edges, walk.last());
    } else {
        lemma_reverse_walk(edges, walk, n - 1);
        let k = walk.len() - n;
        assert(adjacent(edges, walk[k], walk[k + 1]));
        lemma_connected_step(edges, walk.last(), walk[k + 1], walk[k]);
    }
}

/// More edges connect no less.
pub proof fn lemma_connected_monotone(
    edges: Set<(int, int)>,
    more: Set<(int, int)>,
    a: int,
    b: int,
)
    requires
        edges.subset_of(more),
        connected(edges, a, b),
    ensures
        connected(more, a, b),
{
    reveal(connected);
    let path = choose|path: Seq<int>| is_path(edges, path) && path.first() == a && path.last() == b;
    assert forall|k: int| 0 <= k < path.len() - 1 implies adjacent(
        more,
        #[trigger] path[k],
        path[k + 1],
    ) by {
        assert(adjacent(edges, path[k], path[k + 1]));
    }
    assert(is_path(more, path));
}

/// What one more edge `(x, y)` connects: `a` and `b` are connected with it
/// if they were without it, or if one of them was connected to `x` and the
/// other to `y`.
pub open spec fn joined(edges: Set<(int, int)>, x: int, y: int, a: int, b: int) -> bool {
    ||| connected(edges, a, b)
    ||| connected(edges, a, x) && connected(edges, b, y)
    ||| connected(edges, a, y) && connected(edges, b, x)
}

/// A walk that may use the edge `(x, y)` joins only vertices that the edge
/// joins.
proof fn lemma_walk_with_edge(edges: Set<(int, int)>, x: int, y: int, walk: Seq<int>, n: int)
    requires
        is_path(edges.insert((x, y)), walk),
        1 <= n <= walk.len(),
    ensures
        joined(edges, x, y, walk.first(), walk[n - 1]),
    decreases n,
{
    let a = walk.first();
    if n == 1 {
        lemma_connected_reflexive(edges, a);
    } else {
        lemma_walk_with_edge(edges, x, y, walk, n - 1);
        let c = walk[n - 2];
        let b = walk[n - 1];
        assert(adjacent(edges.insert((x, y)), walk[n - 2], walk[n - 2 + 1]));
        lemma_connected_reflexive(edges, x);
        lemma_connected_reflexive(edges, y);
        if adjacent(edges, c, b) {
            if connected(edges, a, c) {
                lemma_connected_step(edges, a, c, b);
            } else if connected(edges, a, x) && connected(edges, c, y) {
                lemma_connected_symmetric(edges, c, y);
                lemma_connected_step(edges, y, c, b);
                lemma_connected_symmetric(edges, y, b);
            } else {
                lemma_connected_symmetric(edges, c, x);
                lemma_connected_step(edges, x, c, b);
                lemma_connected_symmetric(edges, x, b);
            }
        } else {
            // The step from `c` to `b` is the new edge.
            assert((c == x && b == y) || (c == y && b == x));
        }
    }
}

/// Adding the edge `(x, y)` connects exactly what it joins.
pub proof fn lemma_add_edge(edges: Set<(int, int)>, x: int, y: int, a: int, b: int)
    ensures
        connected(edges.insert((x, y)), a, b) <==> joined(edges, x, y, a, b),
{
    reveal(connected);
    let more = edges.insert((x, y));
    if connected(more, a, b) {
        let path = choose|path: Seq<int>|
            is_path(more, path) && path.first() == a && path.last() == b;
        lemma_walk_with_edge(edges, x, y, path, path.len() as int);
    }
    if joined(edges, x, y, a, b) {
        assert(edges.subset_of(more));
        lemma_connected_reflexive(more, x);
        assert(adjacent(more, x, y));
        lemma_connected_step(more, x, x, y);
        lemma_connected_symmetric(more, x, y);
        if connected(edges, a, b) {
            lemma_connected_monotone(edges, more, a, b);
        } else if connected(edges, a, x) && connected(edges, b, y) {
            lemma_connected_monotone(edges, more, a, x);
            lemma_connected_monotone(edges, more, b, y);
            lemma_connected_symmetric(more, b, y);
            lemma_connected_transitive(more, a, x, y);
            lemma_connected_transitive(more, a, y, b);
        } else {
            lemma_connected_monotone(edges, more, a, y);
            lemma_connected_monotone(edges, more, b, x);
            lemma_connected_symmetric(more, b, x);
            lemma_connected_transitive(more, a, y, x);
            lemma_connected_transitive(more, a, x, b);
        }
    }
}

/// With no edge, a vertex is connected to itself only.
pub proof fn lemma_connected_empty(a: int, b: int)
    ensures
        connected(Set::<(int, int)>::empty(), a, b) <==> a == b,
{
    reveal(connected);
    let none = Set::<(int, int)>::empty();
    lemma_connected_reflexive(none, a);
    if connected(none, a, b) {
        let path = choose|path: Seq<int>|
            is_path(none, path) && path.first() == a && path.last() == b;
        if path.len() > 1 {
            assert(adjacent(none, path[0int], path[0int + 1]));
        }
    }
}

/// Connectivity is the finest equivalence that holds the edges: any
/// reflexive, symmetric and transitive relation that relates the ends of
/// every edge relates every two connected vertices.
pub proof fn lemma_connected_is_finest(
    edges: Set<(int, int)>,
    relation: spec_fn(int, int) -> bool,
    a: int,
    b: int,
)
    requires
        forall|u: int| #[trigger] relation(u, u),
        forall|u: int, v: int| #[trigger] relation(u, v) ==> relation(v, u),
        forall|u: int, v: int, w: int|
            #[trigger] relation(u, v) && #[trigger] relation(v, w) ==> relation(u, w),
        forall|u: int, v: int| edges.contains((u, v)) ==> #[trigger] relation(u, v),
        connected(edges, a, b),
    ensures
        relation(a, b),
{
    reveal(connected);
    let path = choose|path: Seq<int>| is_path(edges, path) && path.first() == a && path.last() == b;
    lemma_walk_in_relation(edges, relation, path, path.len() as int);
}

/// The first vertex of a walk is related to each of the walk's vertices.
proof fn lemma_walk_in_relation(
    edges: Set<(int, int)>,
    relation: spec_fn(int, int) -> bool,
    walk: Seq<int>,
    n: int,
)
    requires
        forall|u: int| #[trigger] relation(u, u),
        forall|u: int, v: int| #[trigger] relation(u, v) ==> relation(v, u),
        forall|u: int, v: int, w: int|
            #[trigger] relation(u, v) && #[trigger] relation(v, w) ==> relation(u, w),
        forall|u: int, v: int| edges.contains((u, v)) ==> #[trigger] relation(u, v),
        is_path(edges, walk),
        1 <= n <= walk.len(),
    ensures
        relation(walk.first(), walk[n - 1]),
    decreases n,
{
    if n > 1 {
        lemma_walk_in_relation(edges, relation, walk, n - 1);
        assert(adjacent(edges, walk[n - 2], walk[n - 2 + 1]));
        if edges.contains((walk[n - 1], walk[n - 2])) {
            assert(relation(walk[n - 1], walk[n - 2]));
        }
        assert(relation(walk[n - 2], walk[n - 1]));
    }
}

} // verus!
