//! What a breadth-first traversal is: the order in which the nodes are
//! discovered, the edge over which each is discovered, and what follows for
//! the paths and the distances that are recorded.

use crate::bfs::{source_record, unreachable_record, Distance, NodeRecord};
use crate::graph::{edges_of, mirrored, undirected, Adjacency};
use crate::keys::{keyed, lemma_index_of_unique};
use crate::walks::{
    adjacent, first_edge_to, is_walk, path_weight, reachable, step_weight, walk_between,
};
use vstd::prelude::*;

verus! {

/// Edge positions in the order of expansion: `(p, k)` is edge `k` of the
/// `p`-th node, and comes before every edge of a later node and before the
/// later edges of the same node.
pub open spec fn earlier(a: (int, int), b: (int, int)) -> bool {
    a.0 < b.0 || (a.0 == b.0 && a.1 < b.1)
}

/// `at` is the position of an edge of one of the nodes in `order`.
pub open spec fn is_edge(g: Adjacency, order: Seq<Seq<char>>, at: (int, int)) -> bool {
    0 <= at.0 < order.len() && 0 <= at.1 < edges_of(g, order[at.0]).len()
}

/// Node `i` was discovered over the edge at `at`: that edge leaves an earlier
/// node and leads to node `i`, no edge before it leads to node `i`, and the
/// record of node `i` continues the record of the node that the edge leaves.
pub open spec fn discovered(
    g: Adjacency,
    order: Seq<Seq<char>>,
    records: Seq<NodeRecord>,
    i: int,
    at: (int, int),
) -> bool {
    let edge = edges_of(g, order[at.0])[at.1];
    let parent = records[at.0];
    &&& is_edge(g, order, at)
    &&& at.0 < i
    &&& edge.0 == order[i]
    &&& forall|p: int, k: int|
        is_edge(g, order, (p, k)) && earlier((p, k), at) ==> (#[trigger] edges_of(g, order[p])[k]).0
            != order[i]
    &&& parent.distance is Finite
    &&& records[i].distance is Finite
    &&& records[i].distance->0 == parent.distance->0 + edge.1
    &&& records[i].path == parent.path.push(order[i])
}

/// The traversal has expanded every edge before `frontier`, and nothing else:
/// `order` lists the nodes discovered so far in the order of their discovery,
/// `records` their records and `tree` the edge over which each was discovered.
pub open spec fn expanded_to(
    g: Adjacency,
    source: Seq<char>,
    order: Seq<Seq<char>>,
    records: Seq<NodeRecord>,
    tree: Seq<(int, int)>,
    frontier: (int, int),
) -> bool {
    &&& order.len() >= 1
    &&& order.len() == records.len()
    &&& order.len() == tree.len()
    &&& order.no_duplicates()
    &&& order[0] == source
    &&& records[0] == source_record(source)
    &&& forall|i: int| 1 <= i < order.len() ==> #[trigger] discovered(g, order, records, i, tree[i])
    &&& forall|i: int| 1 <= i < order.len() ==> earlier(#[trigger] tree[i], frontier)
    &&& forall|i: int, j: int|
        1 <= i < j < order.len() ==> earlier(#[trigger] tree[i], #[trigger] tree[j])
    &&& forall|p: int, k: int|
        is_edge(g, order, (p, k)) && earlier((p, k), frontier) ==> order.contains(
            (#[trigger] edges_of(g, order[p])[k]).0,
        )
}

/// The result of a breadth-first traversal of `g` from `source`: every edge
/// of every node in `order` has been expanded.
pub open spec fn breadth_first(
    g: Adjacency,
    source: Seq<char>,
    order: Seq<Seq<char>>,
    records: Seq<NodeRecord>,
    tree: Seq<(int, int)>,
) -> bool {
    expanded_to(g, source, order, records, tree, (order.len() as int, 0))
}

/// Expanding an edge that leads to a node already discovered changes nothing.
pub proof fn lemma_expand_known(
    g: Adjacency,
    source: Seq<char>,
    order: Seq<Seq<char>>,
    records: Seq<NodeRecord>,
    tree: Seq<(int, int)>,
    p: int,
    k: int,
)
    requires
        expanded_to(g, source, order, records, tree, (p, k)),
        is_edge(g, order, (p, k)),
        order.contains(edges_of(g, order[p])[k].0),
    ensures
        expanded_to(g, source, order, records, tree, (p, k + 1)),
{
    assert forall|i: int| 1 <= i < order.len() implies earlier(#[trigger] tree[i], (p, k + 1)) by {
        assert(earlier(tree[i], (p, k)));
    }
    assert forall|q: int, j: int|
        is_edge(g, order, (q, j)) && earlier((q, j), (p, k + 1)) implies order.contains(
        (#[trigger] edges_of(g, order[q])[j]).0,
    ) by {
        if !earlier((q, j), (p, k)) {
            assert(q == p && j == k);
        }
    }
}

/// Expanding an edge that leads to a node not yet discovered discovers it.
pub proof fn lemma_expand_new(
    g: Adjacency,
    source: Seq<char>,
    order: Seq<Seq<char>>,
    records: Seq<NodeRecord>,
    tree: Seq<(int, int)>,
    p: int,
    k: int,
    record: NodeRecord,
)
    requires
        expanded_to(g, source, order, records, tree, (p, k)),
        is_edge(g, order, (p, k)),
        !order.contains(edges_of(g, order[p])[k].0),
        records[p].distance is Finite,
        record.distance is Finite,
        record.distance->0 == records[p].distance->0 + edges_of(g, order[p])[k].1,
        record.path == records[p].path.push(edges_of(g, order[p])[k].0),
    ensures
        expanded_to(
            g,
            source,
            order.push(edges_of(g, order[p])[k].0),
            records.push(record),
            tree.push((p, k)),
            (p, k + 1),
        ),
{
    let target = edges_of(g, order[p])[k].0;
    let order2 = order.push(target);
    let records2 = records.push(record);
    let tree2 = tree.push((p, k));
    let n = order.len() as int;
    assert(order2.no_duplicates()) by {
        assert forall|i: int, j: int|
            0 <= i < order2.len() && 0 <= j < order2.len() && i != j implies order2[i]
            != order2[j] by {
            if i < n && j < n {
            } else if i < n {
                assert(order.contains(order[i]));
            } else if j < n {
                assert(order.contains(order[j]));
            }
        }
    }
    assert forall|i: int| 1 <= i < order2.len() implies earlier(#[trigger] tree2[i], (p, k + 1)) by {
        if i < n {
            assert(earlier(tree[i], (p, k)));
        }
    }
    assert forall|i: int| 1 <= i < order2.len() implies #[trigger] discovered(
        g,
        order2,
        records2,
        i,
        tree2[i],
    ) by {
        if i < n {
            assert(discovered(g, order, records, i, tree[i]));
            let at = tree[i];
            assert forall|q: int, j: int|
                is_edge(g, order2, (q, j)) && earlier((q, j), at) implies (#[trigger] edges_of(
                g,
                order2[q],
            )[j]).0 != order2[i] by {
                assert(is_edge(g, order, (q, j)));
                assert(edges_of(g, order[q])[j].0 != order[i]);
            }
        } else {
            assert forall|q: int, j: int|
                is_edge(g, order2, (q, j)) && earlier((q, j), (p, k)) implies (#[trigger] edges_of(
                g,
                order2[q],
            )[j]).0 != order2[i] by {
                assert(is_edge(g, order, (q, j)));
                assert(order.contains(edges_of(g, order[q])[j].0));
            }
        }
    }
    assert forall|i: int, j: int| 1 <= i < j < order2.len() implies earlier(
        #[trigger] tree2[i],
        #[trigger] tree2[j],
    ) by {
        if j == n {
            assert(discovered(g, order, records, i, tree[i]));
        }
    }
    assert forall|q: int, j: int|
        is_edge(g, order2, (q, j)) && earlier((q, j), (p, k + 1)) implies order2.contains(
        (#[trigger] edges_of(g, order2[q])[j]).0,
    ) by {
        if earlier((q, j), (p, k)) {
            assert(is_edge(g, order, (q, j)));
            let target2 = edges_of(g, order[q])[j].0;
            assert(order.contains(target2));
            let at = order.index_of(target2);
            assert(order2[at] == target2);
        } else {
            assert(q == p && j == k);
            assert(order2[n] == target);
        }
    }
}

/// When every edge of a node has been expanded, the next node is due.
pub proof fn lemma_next_node(
    g: Adjacency,
    source: Seq<char>,
    order: Seq<Seq<char>>,
    records: Seq<NodeRecord>,
    tree: Seq<(int, int)>,
    p: int,
)
    requires
        0 <= p < order.len(),
        expanded_to(g, source, order, records, tree, (p, edges_of(g, order[p]).len() as int)),
    ensures
        expanded_to(g, source, order, records, tree, (p + 1, 0)),
{
    let last = (p, edges_of(g, order[p]).len() as int);
    assert forall|i: int| 1 <= i < order.len() implies earlier(#[trigger] tree[i], (p + 1, 0)) by {
        assert(earlier(tree[i], last));
    }
}

/// In an undirected graph every node that has been discovered, but perhaps
/// the source, is a node of the graph.
pub proof fn lemma_discovered_in_graph(
    g: Adjacency,
    source: Seq<char>,
    order: Seq<Seq<char>>,
    records: Seq<NodeRecord>,
    tree: Seq<(int, int)>,
    frontier: (int, int),
    i: int,
)
    requires
        undirected(g),
        expanded_to(g, source, order, records, tree, frontier),
        1 <= i < order.len(),
    ensures
        g.dom().contains(order[i]),
{
    assert(discovered(g, order, records, i, tree[i]));
    let at = tree[i];
    assert(mirrored(g, order[at.0], at.1));
}

/// A traversal cannot discover more nodes than the graph has, and the source.
pub proof fn lemma_discovered_count(
    g: Adjacency,
    source: Seq<char>,
    order: Seq<Seq<char>>,
    records: Seq<NodeRecord>,
    tree: Seq<(int, int)>,
    frontier: (int, int),
)
    requires
        undirected(g),
        g.dom().finite(),
        expanded_to(g, source, order, records, tree, frontier),
    ensures
        order.len() <= g.dom().len() + 1,
{
    let rest = order.subrange(1, order.len() as int);
    assert(rest.no_duplicates());
    rest.unique_seq_to_set();
    assert forall|id: Seq<char>| rest.to_set().contains(id) implies g.dom().contains(id) by {
        let i = rest.index_of(id);
        assert(rest[i] == order[i + 1]);
        lemma_discovered_in_graph(g, source, order, records, tree, frontier, i + 1);
    }
    vstd::set_lib::lemma_len_subset(rest.to_set(), g.dom());
}

/// Two breadth-first traversals of one graph from one source agree on
/// everything before index `n`.
proof fn lemma_traversals_agree(
    g: Adjacency,
    source: Seq<char>,
    order1: Seq<Seq<char>>,
    records1: Seq<NodeRecord>,
    tree1: Seq<(int, int)>,
    order2: Seq<Seq<char>>,
    records2: Seq<NodeRecord>,
    tree2: Seq<(int, int)>,
    n: int,
)
    requires
        breadth_first(g, source, order1, records1, tree1),
        breadth_first(g, source, order2, records2, tree2),
        0 <= n <= order1.len(),
        n <= order2.len(),
    ensures
        forall|i: int| 0 <= i < n ==> order1[i] == order2[i],
        forall|i: int| 0 <= i < n ==> records1[i] == records2[i],
        forall|i: int| 1 <= i < n ==> tree1[i] == tree2[i],
    decreases n,
{
    if n >= 2 {
        lemma_traversals_agree(g, source, order1, records1, tree1, order2, records2, tree2, n - 1);
        let i = n - 1;
        assert(discovered(g, order1, records1, i, tree1[i]));
        assert(discovered(g, order2, records2, i, tree2[i]));
        lemma_no_earlier_discovery(
            g,
            source,
            order1,
            records1,
            tree1,
            order2,
            records2,
            tree2,
            i,
        );
        lemma_no_earlier_discovery(
            g,
            source,
            order2,
            records2,
            tree2,
            order1,
            records1,
            tree1,
            i,
        );
        assert(tree1[i] == tree2[i]);
        let p = tree1[i].0;
        assert(order1[p] == order2[p]);
        assert(records1[p] == records2[p]);
    } else if n == 1 {
    }
}

/// Where two breadth-first traversals agree before index `i`, the second
/// does not discover its node `i` over an earlier edge than the first.
proof fn lemma_no_earlier_discovery(
    g: Adjacency,
    source: Seq<char>,
    order1: Seq<Seq<char>>,
    records1: Seq<NodeRecord>,
    tree1: Seq<(int, int)>,
    order2: Seq<Seq<char>>,
    records2: Seq<NodeRecord>,
    tree2: Seq<(int, int)>,
    i: int,
)
    requires
        breadth_first(g, source, order1, records1, tree1),
        breadth_first(g, source, order2, records2, tree2),
        1 <= i < order1.len(),
        i < order2.len(),
        forall|j: int| 0 <= j < i ==> order1[j] == order2[j],
    ensures
        !earlier(tree2[i], tree1[i]),
{
    assert(discovered(g, order1, records1, i, tree1[i]));
    assert(discovered(g, order2, records2, i, tree2[i]));
    if earlier(tree2[i], tree1[i]) {
        let (p, k) = tree2[i];
        let id = order2[i];
        assert(order1[p] == order2[p]);
        assert(is_edge(g, order1, (p, k)));
        assert(edges_of(g, order1[p])[k].0 == id);
        assert(order1.contains(id));
        let j = order1.index_of(id);
        if j < i {
            assert(order2[j] == id);
        } else if j == i {
        } else {
            assert(discovered(g, order1, records1, j, tree1[j]));
            assert(earlier(tree1[i], tree1[j]));
        }
    }
}

/// A graph and a source have one breadth-first traversal: the nodes, the
/// order of their discovery and their records are determined.
pub proof fn lemma_breadth_first_unique(
    g: Adjacency,
    source: Seq<char>,
    order1: Seq<Seq<char>>,
    records1: Seq<NodeRecord>,
    tree1: Seq<(int, int)>,
    order2: Seq<Seq<char>>,
    records2: Seq<NodeRecord>,
    tree2: Seq<(int, int)>,
)
    requires
        breadth_first(g, source, order1, records1, tree1),
        breadth_first(g, source, order2, records2, tree2),
    ensures
        order1 == order2,
        records1 == records2,
{
    let n = if order1.len() <= order2.len() {
        order1.len() as int
    } else {
        order2.len() as int
    };
    lemma_traversals_agree(g, source, order1, records1, tree1, order2, records2, tree2, n);
    if order1.len() < order2.len() {
        lemma_nothing_beyond(g, source, order1, records1, tree1, order2, records2, tree2);
    }
    if order2.len() < order1.len() {
        lemma_nothing_beyond(g, source, order2, records2, tree2, order1, records1, tree1);
    }
    assert(order1 =~= order2);
    assert(records1 =~= records2);
}

/// Where a breadth-first traversal agrees with another on all its nodes,
/// the other has no further node.
proof fn lemma_nothing_beyond(
    g: Adjacency,
    source: Seq<char>,
    order1: Seq<Seq<char>>,
    records1: Seq<NodeRecord>,
    tree1: Seq<(int, int)>,
    order2: Seq<Seq<char>>,
    records2: Seq<NodeRecord>,
    tree2: Seq<(int, int)>,
)
    requires
        breadth_first(g, source, order1, records1, tree1),
        breadth_first(g, source, order2, records2, tree2),
        order1.len() <= order2.len(),
        forall|j: int| 0 <= j < order1.len() ==> order1[j] == order2[j],
    ensures
        order1.len() == order2.len(),
{
    if order1.len() < order2.len() {
        let i = order1.len() as int;
        assert(discovered(g, order2, records2, i, tree2[i]));
        let (p, k) = tree2[i];
        assert(order1[p] == order2[p]);
        assert(is_edge(g, order1, (p, k)));
        assert(order1.contains(edges_of(g, order1[p])[k].0));
        let j = order1.index_of(order2[i]);
        assert(order2[j] == order2[i]);
    }
}

/// The path recorded for a node of a breadth-first traversal is a walk from
/// the source to that node.
pub proof fn lemma_path_is_walk(
    g: Adjacency,
    source: Seq<char>,
    order: Seq<Seq<char>>,
    records: Seq<NodeRecord>,
    tree: Seq<(int, int)>,
    i: int,
)
    requires
        breadth_first(g, source, order, records, tree),
        0 <= i < order.len(),
    ensures
        walk_between(g, records[i].path, source, order[i]),
    decreases i,
{
    if i >= 1 {
        assert(discovered(g, order, records, i, tree[i]));
        let (p, k) = tree[i];
        lemma_path_is_walk(g, source, order, records, tree, p);
        let before = records[p].path;
        let path = records[i].path;
        assert forall|t: int| 0 <= t < path.len() - 1 implies adjacent(
            g,
            #[trigger] path[t],
            path[t + 1],
        ) by {
            if t < before.len() - 1 {
                assert(adjacent(g, before[t], before[t + 1]));
            } else {
                assert(edges_of(g, order[p])[k].0 == order[i]);
            }
        }
    }
}

/// Nodes are discovered in the order of the lengths of their paths.
pub proof fn lemma_paths_grow(
    g: Adjacency,
    source: Seq<char>,
    order: Seq<Seq<char>>,
    records: Seq<NodeRecord>,
    tree: Seq<(int, int)>,
    i: int,
    j: int,
)
    requires
        breadth_first(g, source, order, records, tree),
        0 <= i <= j < order.len(),
    ensures
        1 <= records[i].path.len() <= records[j].path.len(),
    decreases j,
{
    if j >= 1 {
        assert(discovered(g, order, records, j, tree[j]));
        let pj = tree[j].0;
        if i == j {
            lemma_paths_grow(g, source, order, records, tree, pj, pj);
        } else if i == 0 {
            lemma_paths_grow(g, source, order, records, tree, 0, pj);
        } else {
            assert(discovered(g, order, records, i, tree[i]));
            let pi = tree[i].0;
            assert(earlier(tree[i], tree[j]));
            lemma_paths_grow(g, source, order, records, tree, pi, pj);
        }
    }
}

/// The path of the node that an edge leads to is at most one node longer
/// than the path of the node that the edge leaves.
pub proof fn lemma_edge_adds_one(
    g: Adjacency,
    source: Seq<char>,
    order: Seq<Seq<char>>,
    records: Seq<NodeRecord>,
    tree: Seq<(int, int)>,
    a: int,
    k: int,
    b: int,
)
    requires
        breadth_first(g, source, order, records, tree),
        is_edge(g, order, (a, k)),
        0 <= b < order.len(),
        order[b] == edges_of(g, order[a])[k].0,
    ensures
        records[b].path.len() <= records[a].path.len() + 1,
{
    if b == 0 {
        lemma_paths_grow(g, source, order, records, tree, 0, a);
    } else {
        assert(discovered(g, order, records, b, tree[b]));
        let p = tree[b].0;
        assert(!earlier((a, k), tree[b])) by {
            if earlier((a, k), tree[b]) {
                assert(edges_of(g, order[a])[k].0 != order[b]);
            }
        }
        lemma_paths_grow(g, source, order, records, tree, p, a);
    }
}

/// A breadth-first traversal reaches the end of every walk from the source,
/// and records for it a path that has no more nodes than the walk.
pub proof fn lemma_walk_is_no_shorter(
    g: Adjacency,
    source: Seq<char>,
    order: Seq<Seq<char>>,
    records: Seq<NodeRecord>,
    tree: Seq<(int, int)>,
    w: Seq<Seq<char>>,
)
    requires
        breadth_first(g, source, order, records, tree),
        is_walk(g, w),
        w[0] == source,
    ensures
        order.contains(w.last()),
        records[order.index_of(w.last())].path.len() <= w.len(),
    decreases w.len(),
{
    if w.len() == 1 {
        assert(order[0] == w.last());
        let i = order.index_of(w.last());
        assert(i == 0);
    } else {
        let shorter = w.drop_last();
        assert forall|t: int| 0 <= t < shorter.len() - 1 implies adjacent(
            g,
            #[trigger] shorter[t],
            shorter[t + 1],
        ) by {
            assert(adjacent(g, w[t], w[t + 1]));
        }
        lemma_walk_is_no_shorter(g, source, order, records, tree, shorter);
        let a = order.index_of(shorter.last());
        let t = w.len() - 2;
        assert(adjacent(g, w[t], w[t + 1]));
        assert(w[t] == order[a]);
        let k = choose|k: int|
            0 <= k < edges_of(g, order[a]).len() && (#[trigger] edges_of(g, order[a])[k]).0
                == w.last();
        assert(is_edge(g, order, (a, k)));
        assert(order.contains(edges_of(g, order[a])[k].0));
        let b = order.index_of(w.last());
        lemma_edge_adds_one(g, source, order, records, tree, a, k, b);
    }
}

/// Of all walks from the source to a node that a breadth-first traversal
/// has reached, none has fewer edges than the path recorded for the node.
pub proof fn lemma_fewest_hops(
    g: Adjacency,
    source: Seq<char>,
    order: Seq<Seq<char>>,
    records: Seq<NodeRecord>,
    tree: Seq<(int, int)>,
    i: int,
    w: Seq<Seq<char>>,
)
    requires
        breadth_first(g, source, order, records, tree),
        0 <= i < order.len(),
        walk_between(g, w, source, order[i]),
    ensures
        walk_between(g, records[i].path, source, order[i]),
        records[i].path.len() - 1 <= w.len() - 1,
{
    lemma_path_is_walk(g, source, order, records, tree, i);
    lemma_walk_is_no_shorter(g, source, order, records, tree, w);
    let j = order.index_of(w.last());
    assert(order[j] == order[i]);
}

/// A breadth-first traversal reaches exactly the nodes to which there is a
/// walk from the source.
pub proof fn lemma_reached_is_reachable(
    g: Adjacency,
    source: Seq<char>,
    order: Seq<Seq<char>>,
    records: Seq<NodeRecord>,
    tree: Seq<(int, int)>,
    id: Seq<char>,
)
    requires
        breadth_first(g, source, order, records, tree),
    ensures
        order.contains(id) <==> reachable(g, source, id),
{
    if order.contains(id) {
        let i = order.index_of(id);
        lemma_path_is_walk(g, source, order, records, tree, i);
        assert(walk_between(g, records[i].path, source, id));
    }
    if reachable(g, source, id) {
        let w = choose|w: Seq<Seq<char>>| walk_between(g, w, source, id);
        lemma_walk_is_no_shorter(g, source, order, records, tree, w);
    }
}

/// The distance recorded for a node of a breadth-first traversal is the
/// length of the path recorded for it.
pub proof fn lemma_distance_is_path_weight(
    g: Adjacency,
    source: Seq<char>,
    order: Seq<Seq<char>>,
    records: Seq<NodeRecord>,
    tree: Seq<(int, int)>,
    i: int,
)
    requires
        breadth_first(g, source, order, records, tree),
        0 <= i < order.len(),
    ensures
        records[i].distance == Distance::Finite(path_weight(g, records[i].path) as u128),
        0 <= path_weight(g, records[i].path) <= u128::MAX,
    decreases i,
{
    if i >= 1 {
        assert(discovered(g, order, records, i, tree[i]));
        let (p, k) = tree[i];
        lemma_distance_is_path_weight(g, source, order, records, tree, p);
        lemma_path_is_walk(g, source, order, records, tree, p);
        let before = records[p].path;
        let path = records[i].path;
        assert(path.drop_last() =~= before);
        let edges = edges_of(g, order[p]);
        assert(first_edge_to(edges, order[i], k)) by {
            assert forall|j: int| 0 <= j < k implies (#[trigger] edges[j]).0 != order[i] by {
                assert(is_edge(g, order, (p, j)) && earlier((p, j), (p, k)));
            }
        }
        let chosen = choose|j: int| first_edge_to(edges, order[i], j);
        assert(chosen == k) by {
            if chosen < k {
                assert(edges[chosen].0 != order[i]);
            } else if k < chosen {
                assert(edges[k].0 != order[i]);
            }
        }
        assert(path[path.len() - 2] == order[p]);
        assert(path[path.len() - 1] == order[i]);
        assert(step_weight(g, order[p], order[i]) == edges[k].1);
    } else {
        assert(records[0].path.len() == 1);
    }
}

/// A source that is no node of the graph is the only node of its traversal.
pub proof fn lemma_source_outside_graph(
    g: Adjacency,
    source: Seq<char>,
    order: Seq<Seq<char>>,
    records: Seq<NodeRecord>,
    tree: Seq<(int, int)>,
)
    requires
        breadth_first(g, source, order, records, tree),
        !g.dom().contains(source),
    ensures
        order == seq![source],
        records == seq![source_record(source)],
{
    if order.len() >= 2 {
        assert(discovered(g, order, records, 1, tree[1]));
    }
    assert(order =~= seq![source]);
    assert(records =~= seq![source_record(source)]);
}

/// Where the source of a traversal ended: the first `reached` records of
/// `order` and `records` are a breadth-first traversal of `g` from `source`,
/// and the records after them mark the nodes of `g` that it did not reach.
pub open spec fn traversed_and_resolved(
    g: Adjacency,
    source: Seq<char>,
    order: Seq<Seq<char>>,
    records: Seq<NodeRecord>,
    reached: int,
    tree: Seq<(int, int)>,
) -> bool {
    &&& 1 <= reached <= order.len()
    &&& order.len() == records.len()
    &&& order.no_duplicates()
    &&& breadth_first(g, source, order.take(reached), records.take(reached), tree)
    &&& forall|i: int| reached <= i < order.len() ==> g.dom().contains(#[trigger] order[i])
    &&& forall|i: int| reached <= i < order.len() ==> #[trigger] records[i] == unreachable_record()
    &&& forall|id: Seq<char>| g.dom().contains(id) ==> order.contains(id)
}

/// After the traversal from `source` and the marking of what it did not
/// reach, the nodes with a record are the nodes of the graph and the source.
pub proof fn lemma_resolved_is_total(
    g: Adjacency,
    source: Seq<char>,
    order: Seq<Seq<char>>,
    records: Seq<NodeRecord>,
    reached: int,
    tree: Seq<(int, int)>,
)
    requires
        undirected(g),
        traversed_and_resolved(g, source, order, records, reached, tree),
    ensures
        keyed(order, records).dom() == g.dom().insert(source),
{
    let first = order.take(reached);
    assert forall|id: Seq<char>| order.contains(id) implies g.dom().insert(source).contains(id) by {
        let i = order.index_of(id);
        if 1 <= i < reached {
            assert(first[i] == order[i]);
            lemma_discovered_in_graph(
                g,
                source,
                first,
                records.take(reached),
                tree,
                (first.len() as int, 0),
                i,
            );
        } else if i == 0 {
            assert(first[0] == order[0]);
        }
    }
    assert(order.contains(source)) by {
        assert(first[0] == order[0]);
    }
    assert(keyed(order, records).dom() =~= g.dom().insert(source));
}

/// `record` holds a walk from `source` to `id` that has the fewest edges of
/// all such walks, and the length of that walk.
pub open spec fn fewest_hops(
    g: Adjacency,
    source: Seq<char>,
    id: Seq<char>,
    record: NodeRecord,
) -> bool {
    &&& walk_between(g, record.path, source, id)
    &&& forall|w: Seq<Seq<char>>| #[trigger]
        walk_between(g, w, source, id) ==> record.path.len() <= w.len()
    &&& record.distance is Finite
    &&& record.distance->0 == path_weight(g, record.path)
}

/// What the node at index `i` of a breadth-first traversal has for a record.
pub proof fn lemma_record_has_fewest_hops(
    g: Adjacency,
    source: Seq<char>,
    order: Seq<Seq<char>>,
    records: Seq<NodeRecord>,
    tree: Seq<(int, int)>,
    i: int,
)
    requires
        breadth_first(g, source, order, records, tree),
        0 <= i < order.len(),
    ensures
        fewest_hops(g, source, order[i], records[i]),
{
    lemma_distance_is_path_weight(g, source, order, records, tree, i);
    lemma_path_is_walk(g, source, order, records, tree, i);
    assert forall|w: Seq<Seq<char>>| #[trigger]
        walk_between(g, w, source, order[i]) implies records[i].path.len() <= w.len() by {
        lemma_fewest_hops(g, source, order, records, tree, i, w);
    }
}

/// A breadth-first traversal has a record for the nodes to which there is a
/// walk from the source and for no others, and each record holds a walk from
/// the source to its node that has the fewest edges of all such walks, and
/// the length of that walk.
pub proof fn lemma_breadth_first_paths(
    g: Adjacency,
    source: Seq<char>,
    order: Seq<Seq<char>>,
    records: Seq<NodeRecord>,
    tree: Seq<(int, int)>,
)
    requires
        breadth_first(g, source, order, records, tree),
    ensures
        forall|id: Seq<char>|
            keyed(order, records).dom().contains(id) <==> reachable(g, source, id),
        forall|id: Seq<char>| #[trigger]
            keyed(order, records).dom().contains(id) ==> fewest_hops(
                g,
                source,
                id,
                keyed(order, records)[id],
            ),
{
    assert forall|id: Seq<char>|
        keyed(order, records).dom().contains(id) <==> reachable(g, source, id) by {
        lemma_reached_is_reachable(g, source, order, records, tree, id);
    }
    assert forall|id: Seq<char>| #[trigger]
        keyed(order, records).dom().contains(id) implies fewest_hops(
        g,
        source,
        id,
        keyed(order, records)[id],
    ) by {
        let i = order.index_of(id);
        lemma_index_of_unique(order, i);
        lemma_record_has_fewest_hops(g, source, order, records, tree, i);
    }
}

/// After the traversal from `source` and the marking of what it did not
/// reach, a node to which there is no walk from the source has the record of
/// a node that cannot be reached, and a node to which there is one has its
/// record of the traversal: a walk from the source to the node that has the
/// fewest edges of all such walks, and the length of that walk.
pub proof fn lemma_unreachable_is_marked(
    g: Adjacency,
    source: Seq<char>,
    order: Seq<Seq<char>>,
    records: Seq<NodeRecord>,
    reached: int,
    tree: Seq<(int, int)>,
)
    requires
        traversed_and_resolved(g, source, order, records, reached, tree),
    ensures
        forall|id: Seq<char>|
            g.dom().contains(id) || id == source ==> keyed(order, records).dom().contains(id),
        forall|id: Seq<char>| #[trigger]
            keyed(order, records).dom().contains(id) ==> if reachable(g, source, id) {
                fewest_hops(g, source, id, keyed(order, records)[id])
            } else {
                keyed(order, records)[id] == unreachable_record()
            },
{
    let first = order.take(reached);
    let first_records = records.take(reached);
    assert(first[0] == order[0]);
    assert(order.contains(source));
    assert forall|id: Seq<char>| #[trigger]
        keyed(order, records).dom().contains(id) implies if reachable(g, source, id) {
        fewest_hops(g, source, id, keyed(order, records)[id])
    } else {
        keyed(order, records)[id] == unreachable_record()
    } by {
        let i = order.index_of(id);
        lemma_index_of_unique(order, i);
        lemma_reached_is_reachable(g, source, first, first_records, tree, id);
        if i < reached {
            assert(first[i] == id);
            assert(first_records[i] == records[i]);
            lemma_record_has_fewest_hops(g, source, first, first_records, tree, i);
        } else {
            if first.contains(id) {
                let j = first.index_of(id);
                assert(order[j] == id);
            }
        }
    }
}

} // verus!
