//! The outside graph library as this crate sees it: an undirected multigraph
//! whose nodes and edges carry strings, shortest paths over it, and a
//! union-find structure.

use vstd::prelude::*;

use petgraph::graph::{EdgeIndex, Graph, NodeIndex};
use petgraph::unionfind::UnionFind;
use petgraph::Undirected;

verus! {

#[verifier::external_type_specification]
#[verifier::external_body]
#[verifier::reject_recursive_types(N)]
#[verifier::reject_recursive_types(E)]
#[verifier::reject_recursive_types(Ty)]
#[verifier::reject_recursive_types(Ix)]
pub struct ExGraph<N, E, Ty, Ix>(Graph<N, E, Ty, Ix>);

#[verifier::external_type_specification]
#[verifier::external_body]
pub struct ExUndirected(Undirected);

#[verifier::external_type_specification]
#[verifier::external_body]
#[verifier::reject_recursive_types(K)]
pub struct ExUnionFind<K>(UnionFind<K>);

/// The node weights of a graph, by node index.
pub uninterp spec fn graph_nodes(g: Graph<String, String, Undirected>) -> Seq<Seq<char>>;

/// The edges of a graph, by edge index: the two endpoints in the order they
/// were added, and the weight.
pub uninterp spec fn graph_edges(g: Graph<String, String, Undirected>) -> Seq<(nat, nat, Seq<char>)>;

/// The newest of the first `i` edges stored as `(a, b)`.
pub open spec fn newest_edge(edges: Seq<(nat, nat, Seq<char>)>, a: nat, b: nat, i: int) -> Option<nat>
    decreases i,
{
    if i <= 0 {
        None
    } else if edges[i - 1].0 == a && edges[i - 1].1 == b {
        Some((i - 1) as nat)
    } else {
        newest_edge(edges, a, b, i - 1)
    }
}

/// The edge that `find_edge` reports between two nodes: each node keeps its
/// edges newest first, so it is the newest edge stored as `(a, b)`, and
/// failing that the newest stored as `(b, a)`.
pub open spec fn found_edge(edges: Seq<(nat, nat, Seq<char>)>, a: nat, b: nat) -> Option<nat> {
    match newest_edge(edges, a, b, edges.len() as int) {
        Some(k) => Some(k),
        None => newest_edge(edges, b, a, edges.len() as int),
    }
}

/// The path that A* reports from `start` to `goal` with unit edge costs and a
/// zero estimate, over a graph with `n` nodes and the given edges.
pub uninterp spec fn unit_astar(n: nat, edges: Seq<(nat, nat, Seq<char>)>, start: nat, goal: nat) -> Option<Seq<nat>>;

/// The labelling that `into_labeling` returns: one representative per element.
pub uninterp spec fn uf_labels(u: UnionFind<usize>) -> Seq<usize>;

/// The edge joins `a` and `b`, in either direction.
pub open spec fn connects(e: (nat, nat, Seq<char>), a: nat, b: nat) -> bool {
    (e.0 == a && e.1 == b) || (e.0 == b && e.1 == a)
}

/// Some edge joins `a` and `b`.
pub open spec fn adjacent(edges: Seq<(nat, nat, Seq<char>)>, a: nat, b: nat) -> bool {
    exists|k: int| 0 <= k < edges.len() && connects(#[trigger] edges[k], a, b)
}

/// `p` is a walk from `a` to `b` through nodes below `n`.
pub open spec fn is_walk(n: nat, edges: Seq<(nat, nat, Seq<char>)>, p: Seq<nat>, a: nat, b: nat) -> bool {
    &&& p.len() > 0
    &&& p[0] == a
    &&& p[p.len() - 1] == b
    &&& forall|i: int| 0 <= i < p.len() ==> #[trigger] p[i] < n
    &&& forall|i: int| 0 <= i < p.len() - 1 ==> adjacent(edges, #[trigger] p[i], p[i + 1])
}

/// Some walk leads from `a` to `b`.
pub open spec fn reachable(n: nat, edges: Seq<(nat, nat, Seq<char>)>, a: nat, b: nat) -> bool {
    exists|p: Seq<nat>| #[trigger] is_walk(n, edges, p, a, b)
}

/// Relies on `Graph::new_undirected`: a graph with no nodes and no edges.
#[verifier::external_body]
pub(crate) fn new_graph() -> (g: Graph<String, String, Undirected>)
    ensures
        graph_nodes(g) == Seq::<Seq<char>>::empty(),
        graph_edges(g) == Seq::<(nat, nat, Seq<char>)>::empty(),
{
    Graph::new_undirected()
}

/// Relies on `Graph::add_node`: the node is appended and its index returned;
/// it panics once the index type (`u32`) is exhausted.
#[verifier::external_body]
pub(crate) fn add_node(g: &mut Graph<String, String, Undirected>, weight: String) -> (r: usize)
    requires
        graph_nodes(*old(g)).len() < u32::MAX,
    ensures
        r == graph_nodes(*old(g)).len(),
        graph_nodes(*final(g)) == graph_nodes(*old(g)).push(weight@),
        graph_edges(*final(g)) == graph_edges(*old(g)),
{
    g.add_node(weight).index()
}

/// Relies on `Graph::add_edge`: the edge is appended; it panics on a missing
/// node or once the index type (`u32`) is exhausted.
#[verifier::external_body]
pub(crate) fn add_edge(g: &mut Graph<String, String, Undirected>, a: usize, b: usize, weight: String)
    requires
        a < graph_nodes(*old(g)).len(),
        b < graph_nodes(*old(g)).len(),
        graph_edges(*old(g)).len() < u32::MAX,
    ensures
        graph_nodes(*final(g)) == graph_nodes(*old(g)),
        graph_edges(*final(g)) == graph_edges(*old(g)).push((a as nat, b as nat, weight@)),
{
    g.add_edge(NodeIndex::new(a), NodeIndex::new(b), weight);
}

/// Relies on `Graph::node_count`.
#[verifier::external_body]
pub(crate) fn node_count(g: &Graph<String, String, Undirected>) -> (r: usize)
    ensures
        r == graph_nodes(*g).len(),
{
    g.node_count()
}

/// Relies on `Graph::node_weight`: the weight of an existing node.
#[verifier::external_body]
pub(crate) fn node_weight(g: &Graph<String, String, Undirected>, n: usize) -> (r: Option<String>)
    requires
        n < graph_nodes(*g).len(),
    ensures
        r is Some,
        r->Some_0@ == graph_nodes(*g)[n as int],
{
    g.node_weight(NodeIndex::new(n)).cloned()
}

/// Relies on `Graph::edge_weight`: the weight of an existing edge.
#[verifier::external_body]
pub(crate) fn edge_weight(g: &Graph<String, String, Undirected>, e: usize) -> (r: Option<String>)
    requires
        e < graph_edges(*g).len(),
    ensures
        r is Some,
        r->Some_0@ == graph_edges(*g)[e as int].2,
{
    g.edge_weight(EdgeIndex::new(e)).cloned()
}

/// Relies on `Graph::find_edge`, which on an undirected graph finds an edge
/// joining the two nodes in either direction.
#[verifier::external_body]
pub(crate) fn find_edge(g: &Graph<String, String, Undirected>, a: usize, b: usize) -> (r: Option<usize>)
    requires
        a < graph_nodes(*g).len(),
        b < graph_nodes(*g).len(),
    ensures
        match r {
            Some(k) => found_edge(graph_edges(*g), a as nat, b as nat) == Some(k as nat) && k
                < graph_edges(*g).len() && connects(graph_edges(*g)[k as int], a as nat, b as nat),
            None => found_edge(graph_edges(*g), a as nat, b as nat) is None && !adjacent(
                graph_edges(*g),
                a as nat,
                b as nat,
            ),
        },
{
    g.find_edge(NodeIndex::new(a), NodeIndex::new(b)).map(|e| e.index())
}

/// Relies on `petgraph::algo::astar` with unit edge costs and a zero (hence
/// admissible) estimate: it finds a path exactly when one exists, and the
/// path it finds has the fewest edges.
#[verifier::external_body]
pub(crate) fn shortest_path(g: &Graph<String, String, Undirected>, start: usize, goal: usize) -> (r: Option<Vec<usize>>)
    requires
        start < graph_nodes(*g).len(),
        goal < graph_nodes(*g).len(),
    ensures
        match r {
            Some(p) => unit_astar(graph_nodes(*g).len(), graph_edges(*g), start as nat, goal as nat)
                == Some(p@.map_values(|x: usize| x as nat)),
            None => unit_astar(graph_nodes(*g).len(), graph_edges(*g), start as nat, goal as nat) is None,
        },
        r is Some <==> reachable(graph_nodes(*g).len(), graph_edges(*g), start as nat, goal as nat),
        r matches Some(p) ==> is_walk(
            graph_nodes(*g).len(),
            graph_edges(*g),
            p@.map_values(|x: usize| x as nat),
            start as nat,
            goal as nat,
        ),
        r matches Some(p) ==> forall|q: Seq<nat>|
            #[trigger] is_walk(graph_nodes(*g).len(), graph_edges(*g), q, start as nat, goal as nat)
                ==> p@.len() <= q.len(),
{
    let path = petgraph::algo::astar(g, NodeIndex::new(start), |n| n.index() == goal, |_| 1u32, |_| 0u32);
    path.map(|(_, nodes)| nodes.into_iter().map(|n| n.index()).collect())
}

/// Relies on `UnionFind::new`: `n` singleton sets.
#[verifier::external_body]
pub(crate) fn new_union_find(n: usize) -> (u: UnionFind<usize>)
    ensures
        uf_labels(u).len() == n,
        forall|i: int, j: int|
            0 <= i < n && 0 <= j < n ==> (uf_labels(u)[i] == uf_labels(u)[j] <==> i == j),
{
    UnionFind::new(n)
}

/// Relies on `UnionFind::union`: the sets of `x` and `y` become one and the
/// others stay as they were; it panics on an element out of bounds.
#[verifier::external_body]
pub(crate) fn union(u: &mut UnionFind<usize>, x: usize, y: usize)
    requires
        x < uf_labels(*old(u)).len(),
        y < uf_labels(*old(u)).len(),
    ensures
        uf_labels(*final(u)).len() == uf_labels(*old(u)).len(),
        forall|a: int, b: int|
            0 <= a < uf_labels(*old(u)).len() && 0 <= b < uf_labels(*old(u)).len() ==> ((
            #[trigger] uf_labels(*final(u))[a] == #[trigger] uf_labels(*final(u))[b]) <==> (
            uf_labels(*old(u))[a] == uf_labels(*old(u))[b] || (uf_labels(*old(u))[a]
                == uf_labels(*old(u))[x as int] && uf_labels(*old(u))[b] == uf_labels(
                *old(u),
            )[y as int]) || (uf_labels(*old(u))[a] == uf_labels(*old(u))[y as int] && uf_labels(
                *old(u),
            )[b] == uf_labels(*old(u))[x as int]))),
{
    u.union(x, y);
}

/// Relies on `UnionFind::into_labeling`: each element's representative.
#[verifier::external_body]
pub(crate) fn into_labeling(u: UnionFind<usize>) -> (r: Vec<usize>)
    ensures
        r@ == uf_labels(u),
{
    u.into_labeling()
}

/// A one-node walk.
pub proof fn lemma_walk_single(n: nat, edges: Seq<(nat, nat, Seq<char>)>, a: nat)
    requires
        a < n,
    ensures
        is_walk(n, edges, seq![a], a, a),
        reachable(n, edges, a, a),
{
    assert(is_walk(n, edges, seq![a], a, a));
}

/// Reachability is symmetric.
pub proof fn lemma_reachable_symmetric(n: nat, edges: Seq<(nat, nat, Seq<char>)>, a: nat, b: nat)
    requires
        reachable(n, edges, a, b),
    ensures
        reachable(n, edges, b, a),
{
    let p = choose|p: Seq<nat>| #[trigger] is_walk(n, edges, p, a, b);
    let q = p.reverse();
    assert forall|i: int| 0 <= i < q.len() - 1 implies adjacent(edges, #[trigger] q[i], q[i + 1]) by {
        let j = p.len() - 2 - i;
        assert(adjacent(edges, p[j], p[j + 1]));
        let k = choose|k: int| 0 <= k < edges.len() && connects(#[trigger] edges[k], p[j], p[j + 1]);
        assert(connects(edges[k], q[i], q[i + 1]));
    }
    assert forall|i: int| 0 <= i < q.len() implies #[trigger] q[i] < n by {
        assert(q[i] == p[p.len() - 1 - i]);
    }
    assert(is_walk(n, edges, q, b, a));
}

/// Reachability is transitive.
pub proof fn lemma_reachable_transitive(
    n: nat,
    edges: Seq<(nat, nat, Seq<char>)>,
    a: nat,
    b: nat,
    c: nat,
)
    requires
        reachable(n, edges, a, b),
        reachable(n, edges, b, c),
    ensures
        reachable(n, edges, a, c),
{
    let p = choose|p: Seq<nat>| #[trigger] is_walk(n, edges, p, a, b);
    let q = choose|q: Seq<nat>| #[trigger] is_walk(n, edges, q, b, c);
    let w = p + q.drop_first();
    assert forall|i: int| 0 <= i < w.len() implies #[trigger] w[i] < n by {
        if i >= p.len() {
            assert(w[i] == q[i - p.len() + 1]);
        }
    }
    assert forall|i: int| 0 <= i < w.len() - 1 implies adjacent(edges, #[trigger] w[i], w[i + 1]) by {
        if i < p.len() - 1 {
            assert(adjacent(edges, p[i], p[i + 1]));
        } else if i == p.len() - 1 {
            assert(w[i] == q[0]);
            assert(w[i + 1] == q[1]);
            assert(adjacent(edges, q[0], q[1]));
        } else {
            let j = i - p.len() + 1;
            assert(w[i] == q[j]);
            assert(w[i + 1] == q[j + 1]);
            assert(adjacent(edges, q[j], q[j + 1]));
        }
    }
    if q.len() == 1 {
        assert(w =~= p);
    } else {
        assert(w[w.len() - 1] == q[q.len() - 1]);
    }
    assert(is_walk(n, edges, w, a, c));
}

/// A walk with the fewest edges visits no node twice.
pub proof fn lemma_shortest_walk_simple(n: nat, edges: Seq<(nat, nat, Seq<char>)>, p: Seq<nat>, a: nat, b: nat)
    requires
        is_walk(n, edges, p, a, b),
        forall|q: Seq<nat>| #[trigger] is_walk(n, edges, q, a, b) ==> p.len() <= q.len(),
    ensures
        forall|i: int, j: int| 0 <= i < j < p.len() ==> p[i] != p[j],
{
    assert forall|i: int, j: int| 0 <= i < j < p.len() implies p[i] != p[j] by {
        if p[i] == p[j] {
            let q = p.subrange(0, i) + p.subrange(j, p.len() as int);
            assert forall|x: int| 0 <= x < q.len() implies #[trigger] q[x] < n by {
                if x < i {
                    assert(q[x] == p[x]);
                } else {
                    assert(q[x] == p[x - i + j]);
                }
            }
            assert forall|x: int| 0 <= x < q.len() - 1 implies adjacent(edges, #[trigger] q[x], q[x + 1]) by {
                if x + 1 < i {
                    assert(q[x] == p[x] && q[x + 1] == p[x + 1]);
                    assert(adjacent(edges, p[x], p[x + 1]));
                } else if x + 1 == i {
                    assert(q[x] == p[x] && q[x + 1] == p[j]);
                    assert(adjacent(edges, p[x], p[x + 1]));
                } else {
                    let y = x - i + j;
                    assert(q[x] == p[y] && q[x + 1] == p[y + 1]);
                    assert(adjacent(edges, p[y], p[y + 1]));
                }
            }
            if i > 0 {
                assert(q[0] == p[0]);
            } else {
                assert(q[0] == p[j]);
            }
            assert(q[q.len() - 1] == p[p.len() - 1]);
            assert(is_walk(n, edges, q, a, b));
        }
    }
}

} // verus!
