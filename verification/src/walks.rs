//! Walks in a route graph: which nodes a walk from a node reaches, and how
//! long a path is.

use crate::graph::{edges_of, Adjacency};
use vstd::prelude::*;

verus! {

/// The graph has an edge from `u` to `v`.
pub open spec fn adjacent(g: Adjacency, u: Seq<char>, v: Seq<char>) -> bool {
    exists|k: int| 0 <= k < edges_of(g, u).len() && (#[trigger] edges_of(g, u)[k]).0 == v
}

/// `w` is a walk in the graph: a node, or nodes each joined to the next by an edge.
pub open spec fn is_walk(g: Adjacency, w: Seq<Seq<char>>) -> bool {
    &&& w.len() >= 1
    &&& forall|t: int| 0 <= t < w.len() - 1 ==> adjacent(g, #[trigger] w[t], w[t + 1])
}

/// `w` is a walk from `from` to `to`.
pub open spec fn walk_between(g: Adjacency, w: Seq<Seq<char>>, from: Seq<char>, to: Seq<char>) -> bool {
    is_walk(g, w) && w[0] == from && w.last() == to
}

/// There is a walk from `from` to `to`.
pub open spec fn reachable(g: Adjacency, from: Seq<char>, to: Seq<char>) -> bool {
    exists|w: Seq<Seq<char>>| walk_between(g, w, from, to)
}

/// Edge `k` is the first of `edges` that leads to `to`.
pub open spec fn first_edge_to(edges: Seq<(Seq<char>, u64)>, to: Seq<char>, k: int) -> bool {
    &&& 0 <= k < edges.len()
    &&& edges[k].0 == to
    &&& forall|j: int| 0 <= j < k ==> (#[trigger] edges[j]).0 != to
}

/// The weight of the first edge from `u` to `v`.
pub open spec fn step_weight(g: Adjacency, u: Seq<char>, v: Seq<char>) -> int {
    let edges = edges_of(g, u);
    edges[choose|k: int| first_edge_to(edges, v, k)].1 as int
}

/// The length of a path: the sum, over its steps, of the weight of the first
/// edge from each node to the next.
pub open spec fn path_weight(g: Adjacency, path: Seq<Seq<char>>) -> int
    decreases path.len(),
{
    if path.len() <= 1 {
        0
    } else {
        path_weight(g, path.drop_last()) + step_weight(g, path[path.len() - 2], path[path.len() - 1])
    }
}

} // verus!
