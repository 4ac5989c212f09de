//! Breadth-first traversal of a route graph: for every airport that can be
//! reached from a source, the path by which it is first discovered and the
//! length of that path; and the marking of the airports that cannot be reached.

use crate::discovery::{
    breadth_first, expanded_to, fewest_hops, lemma_breadth_first_paths, lemma_discovered_count,
    lemma_expand_known, lemma_expand_new, lemma_next_node, lemma_resolved_is_total,
    lemma_unreachable_is_marked, traversed_and_resolved,
};
use crate::graph::{edges_of, Adjacency, Graph};
use crate::keys::{keyed, lemma_index_of_unique, lemma_keyed_dom, lemma_keyed_push, position};
use crate::walks::reachable;
use vstd::prelude::*;

verus! {

/// The length of a path in metres, or the mark of a node without a path.
#[derive(Debug, Clone, Copy, PartialEq, Eq)]
pub enum Distance {
    Finite(u128),
    Infinite,
}

/// What a traversal knows of one node: the length of the path from the source
/// and the path itself, from the source to the node.
#[derive(Debug, PartialEq, Eq)]
pub struct NodeWithDistanceAndPath {
    pub distance: Distance,
    pub path: Vec<String>,
}

/// A `NodeWithDistanceAndPath` as a mathematical value.
pub struct NodeRecord {
    pub distance: Distance,
    pub path: Seq<Seq<char>>,
}

impl View for NodeWithDistanceAndPath {
    type V = NodeRecord;

    open spec fn view(&self) -> NodeRecord {
        NodeRecord { distance: self.distance, path: self.path.deep_view() }
    }
}

impl DeepView for NodeWithDistanceAndPath {
    type V = NodeRecord;

    open spec fn deep_view(&self) -> NodeRecord {
        self@
    }
}

impl Clone for NodeWithDistanceAndPath {
    fn clone(&self) -> (node: Self)
        ensures
            node@ == self@,
    {
        let path = self.path.clone();
        assert(path.deep_view() =~= self.path.deep_view());
        NodeWithDistanceAndPath { distance: self.distance, path }
    }
}

/// The record of the source of a traversal.
pub open spec fn source_record(source: Seq<char>) -> NodeRecord {
    NodeRecord { distance: Distance::Finite(0), path: seq![source] }
}

/// The record of a node that cannot be reached.
pub open spec fn unreachable_record() -> NodeRecord {
    NodeRecord { distance: Distance::Infinite, path: Seq::empty() }
}

/// The nodes of a graph with what a traversal has recorded of each, in the
/// order in which the records were made.
#[derive(Debug)]
pub struct Traversal {
    ids: Vec<String>,
    nodes: Vec<NodeWithDistanceAndPath>,
}

impl View for Traversal {
    type V = Map<Seq<char>, NodeRecord>;

    open spec fn view(&self) -> Map<Seq<char>, NodeRecord> {
        keyed(self.order(), self.records())
    }
}

impl Traversal {
    /// The identifiers of the nodes, in the order in which they were recorded.
    pub closed spec fn order(&self) -> Seq<Seq<char>> {
        self.ids.deep_view()
    }

    /// The record of each node, in the same order.
    pub closed spec fn records(&self) -> Seq<NodeRecord> {
        self.nodes.deep_view()
    }

    /// One record per node.
    pub open spec fn wf(&self) -> bool {
        &&& self.order().len() == self.records().len()
        &&& self.order().no_duplicates()
    }

    /// The number of nodes that have a record.
    pub fn len(&self) -> (n: usize)
        requires
            self.wf(),
        ensures
            self@.dom().finite(),
            n == self@.dom().len(),
            n == self.order().len(),
    {
        proof {
            lemma_keyed_dom(self.order(), self.records());
        }
        self.ids.len()
    }

    pub fn is_empty(&self) -> (b: bool)
        requires
            self.wf(),
        ensures
            b == (self.order().len() == 0),
    {
        self.ids.len() == 0
    }

    /// The identifiers of the nodes that have a record, in the order in
    /// which the records were made.
    pub fn keys(&self) -> (ids: &Vec<String>)
        ensures
            ids.deep_view() == self.order(),
    {
        &self.ids
    }

    pub fn contains_key(&self, id: &str) -> (b: bool)
        requires
            self.wf(),
        ensures
            b == self@.dom().contains(id@),
    {
        let key = id.to_owned();
        position(&self.ids, &key).is_some()
    }

    /// The record of node `id`, if it has one.
    pub fn get(&self, id: &str) -> (r: Option<&NodeWithDistanceAndPath>)
        requires
            self.wf(),
        ensures
            match r {
                Some(node) => self@.dom().contains(id@) && node@ == self@[id@],
                None => !self@.dom().contains(id@),
            },
    {
        let key = id.to_owned();
        match position(&self.ids, &key) {
            Some(i) => {
                proof {
                    lemma_index_of_unique(self.ids.deep_view(), i as int);
                }
                Some(&self.nodes[i])
            },
            None => None,
        }
    }
}

/// Path lengths stay far from the end of their type: a path of `n` nodes is
/// at most `n - 1` times the greatest weight long.
spec fn within_bound(node: NodeWithDistanceAndPath) -> bool {
    &&& node.distance is Finite
    &&& node.path.len() >= 1
    &&& node.distance->0 <= (node.path.len() - 1) * u64::MAX
}

/// The bookkeeping of a traversal: `seen` says of each node of the graph
/// whether it has been discovered, and `places` gives for each discovered
/// node its index among the nodes of the graph.
spec fn tracks(
    nodes: Seq<Seq<char>>,
    order: Seq<Seq<char>>,
    seen: Seq<bool>,
    places: Seq<usize>,
) -> bool {
    &&& seen.len() == nodes.len()
    &&& places.len() == order.len()
    &&& forall|i: int| 0 <= i < places.len() ==> (#[trigger] places[i]) < nodes.len()
    &&& forall|i: int| 0 <= i < places.len() ==> nodes[(#[trigger] places[i]) as int] == order[i]
    &&& forall|v: int| 0 <= v < seen.len() ==> (#[trigger] seen[v]) == order.contains(nodes[v])
}

/// Discovering node `t` of the graph keeps the books.
proof fn lemma_tracks_push(
    nodes: Seq<Seq<char>>,
    order: Seq<Seq<char>>,
    seen: Seq<bool>,
    places: Seq<usize>,
    t: usize,
)
    requires
        nodes.no_duplicates(),
        tracks(nodes, order, seen, places),
        t < nodes.len(),
    ensures
        tracks(nodes, order.push(nodes[t as int]), seen.update(t as int, true), places.push(t)),
{
    let order2 = order.push(nodes[t as int]);
    let seen2 = seen.update(t as int, true);
    let places2 = places.push(t);
    assert forall|i: int| 0 <= i < places2.len() implies nodes[(#[trigger] places2[i]) as int]
        == order2[i] by {
        if i < places.len() {
            assert(nodes[places[i] as int] == order[i]);
        }
    }
    assert forall|v: int| 0 <= v < seen2.len() implies (#[trigger] seen2[v]) == order2.contains(
        nodes[v],
    ) by {
        if v == t {
            assert(order2[order.len() as int] == nodes[v]);
        } else {
            assert(seen[v] == order.contains(nodes[v]));
            if order.contains(nodes[v]) {
                let i = order.index_of(nodes[v]);
                assert(order2[i] == nodes[v]);
            }
            if order2.contains(nodes[v]) {
                let i = order2.index_of(nodes[v]);
                assert(i < order.len());
                assert(order[i] == nodes[v]);
            }
        }
    }
}

/// Traverses the graph breadth first from `source`. The source is recorded
/// first, with distance 0 and the path that holds it alone. Then the nodes are
/// expanded in the order of their discovery, and the edges of each in the
/// order of its list: an edge to a node not yet discovered discovers it, with
/// the path of the expanded node continued by the new node, and with that
/// node's distance plus the weight of the edge. Nodes that cannot be reached
/// from the source are not in the result.
pub fn traverse(graph: &Graph, source: &str) -> (r: Traversal)
    requires
        graph.wf(),
    ensures
        r.wf(),
        exists|tree: Seq<(int, int)>|
            breadth_first(graph@, source@, r.order(), r.records(), tree),
        r@.dom().contains(source@),
        r@[source@] == source_record(source@),
        forall|id: Seq<char>| r@.dom().contains(id) <==> reachable(graph@, source@, id),
        forall|id: Seq<char>| #[trigger]
            r@.dom().contains(id) ==> fewest_hops(graph@, source@, id, r@[id]),
{
    let limit = graph.len();
    let source = source.to_owned();
    let start = graph.index_of(&source);
    let mut ids: Vec<String> = Vec::new();
    let mut nodes: Vec<NodeWithDistanceAndPath> = Vec::new();
    let mut first: Vec<String> = Vec::new();
    first.push(source.clone());
    ids.push(source);
    nodes.push(NodeWithDistanceAndPath { distance: Distance::Finite(0), path: first });
    let ghost mut tree: Seq<(int, int)> = seq![(0int, 0int)];
    proof {
        graph.lemma_order();
        assert(ids.deep_view() =~= seq![source@]);
        assert(nodes.deep_view()[0].path =~= seq![source@]);
        assert(nodes.deep_view()[0] == source_record(source@));
        lemma_index_of_unique(ids.deep_view(), 0);
    }
    let mut seen: Vec<bool> = Vec::new();
    while seen.len() < limit
        invariant
            seen.len() <= limit,
            forall|v: int| 0 <= v < seen.len() ==> !(#[trigger] seen[v]),
        decreases limit - seen.len(),
    {
        seen.push(false);
    }
    let mut places: Vec<usize> = Vec::new();
    match start {
        Some(at) => {
            seen[at] = true;
            places.push(at);
            proof {
                let order = ids.deep_view();
                assert forall|v: int| 0 <= v < seen.len() implies (#[trigger] seen[v])
                    == order.contains(graph.order()[v]) by {
                    if v == at {
                        assert(order[0] == graph.order()[v]);
                    } else if order.contains(graph.order()[v]) {
                        assert(order[order.index_of(graph.order()[v])] == graph.order()[at as int]);
                    }
                }
            }
        },
        None => {
            let r = Traversal { ids, nodes };
            proof {
                assert(edges_of(graph@, source@).len() == 0);
                assert(breadth_first(graph@, source@, r.order(), r.records(), tree));
                lemma_breadth_first_paths(graph@, source@, r.order(), r.records(), tree);
            }
            return r;
        },
    }
    let mut head: usize = 0;
    while head < ids.len()
        invariant
            graph.wf(),
            graph@.dom().finite(),
            graph.order().no_duplicates(),
            limit == graph@.dom().len(),
            limit == graph.order().len(),
            head <= ids.len(),
            ids.len() == nodes.len(),
            expanded_to(
                graph@,
                source@,
                ids.deep_view(),
                nodes.deep_view(),
                tree,
                (head as int, 0),
            ),
            tracks(graph.order(), ids.deep_view(), seen@, places@),
            forall|i: int| 0 <= i < nodes.len() ==> within_bound(#[trigger] nodes[i]),
        decreases limit + 1 - head,
    {
        proof {
            lemma_discovered_count(
                graph@,
                source@,
                ids.deep_view(),
                nodes.deep_view(),
                tree,
                (head as int, 0),
            );
        }
        let at = places[head];
        let edges = graph.edges_at(at);
        let targets = graph.targets_at(at);
        let mut k: usize = 0;
        while k < edges.len()
            invariant
                graph.order().no_duplicates(),
                head < ids.len(),
                ids.len() == nodes.len(),
                k <= edges.len(),
                edges.deep_view() == edges_of(graph@, ids.deep_view()[head as int]),
                targets.len() == edges.len(),
                forall|j: int| 0 <= j < targets.len() ==> (#[trigger] targets[j]) < graph.order().len(),
                forall|j: int|
                    0 <= j < targets.len() ==> graph.order()[(#[trigger] targets[j]) as int]
                        == edges.deep_view()[j].0,
                expanded_to(
                    graph@,
                    source@,
                    ids.deep_view(),
                    nodes.deep_view(),
                    tree,
                    (head as int, k as int),
                ),
                tracks(graph.order(), ids.deep_view(), seen@, places@),
                forall|i: int| 0 <= i < nodes.len() ==> within_bound(#[trigger] nodes[i]),
            decreases edges.len() - k,
        {
            let t = targets[k];
            let to: &String = &edges[k].0;
            let weight: u64 = edges[k].1;
            assert(edges.deep_view()[k as int] == (to@, weight));
            assert(graph.order()[t as int] == to@);
            if !seen[t] {
                let parent = &nodes[head];
                assert(within_bound(*parent));
                let base: u128 = match parent.distance {
                    Distance::Finite(d) => d,
                    Distance::Infinite => {
                        assert(false);
                        0
                    },
                };
                let mut path = parent.path.clone();
                assert(path.deep_view() =~= parent.path.deep_view());
                path.push(to.clone());
                assert(path.deep_view() =~= parent.path.deep_view().push(to@));
                assert(base + weight <= (path.len() - 1) * u64::MAX) by (nonlinear_arith)
                    requires
                        base <= (parent.path.len() - 1) * u64::MAX,
                        weight <= u64::MAX,
                        path.len() == parent.path.len() + 1,
                ;
                assert((path.len() - 1) * u64::MAX <= u128::MAX) by (nonlinear_arith)
                    requires
                        path.len() <= u64::MAX,
                ;
                let node = NodeWithDistanceAndPath {
                    distance: Distance::Finite(base + weight as u128),
                    path,
                };
                proof {
                    lemma_expand_new(
                        graph@,
                        source@,
                        ids.deep_view(),
                        nodes.deep_view(),
                        tree,
                        head as int,
                        k as int,
                        node@,
                    );
                    lemma_tracks_push(graph.order(), ids.deep_view(), seen@, places@, t);
                    tree = tree.push((head as int, k as int));
                }
                let ghost old_ids = ids.deep_view();
                let ghost old_nodes = nodes.deep_view();
                ids.push(to.clone());
                nodes.push(node);
                seen[t] = true;
                places.push(t);
                proof {
                    assert(ids.deep_view() =~= old_ids.push(to@));
                    assert(nodes.deep_view() =~= old_nodes.push(node@));
                }
            } else {
                proof {
                    lemma_expand_known(
                        graph@,
                        source@,
                        ids.deep_view(),
                        nodes.deep_view(),
                        tree,
                        head as int,
                        k as int,
                    );
                }
            }
            k += 1;
        }
        proof {
            lemma_next_node(
                graph@,
                source@,
                ids.deep_view(),
                nodes.deep_view(),
                tree,
                head as int,
            );
        }
        head += 1;
    }
    let r = Traversal { ids, nodes };
    proof {
        assert(breadth_first(graph@, source@, r.order(), r.records(), tree));
        lemma_breadth_first_paths(graph@, source@, r.order(), r.records(), tree);
    }
    r
}

/// The records `t` made total over the graph: every node of `g` without a
/// record in `t` gets the record of a node that cannot be reached.
pub open spec fn resolved(g: Adjacency, t: Map<Seq<char>, NodeRecord>) -> Map<Seq<char>, NodeRecord> {
    Map::new(
        |id: Seq<char>| t.dom().contains(id) || g.dom().contains(id),
        |id: Seq<char>|
            if t.dom().contains(id) {
                t[id]
            } else {
                unreachable_record()
            },
    )
}

/// Gives every node of the graph that has no record in `result` the record
/// of a node that cannot be reached: infinite distance and the empty path.
/// The records that `result` holds stay as they are and where they are; the
/// new records follow them.
pub fn resolve(graph: &Graph, result: &mut Traversal)
    requires
        graph.wf(),
        old(result).wf(),
    ensures
        final(result).wf(),
        final(result)@ == resolved(graph@, old(result)@),
        old(result).order().len() <= final(result).order().len(),
        final(result).order().take(old(result).order().len() as int) == old(result).order(),
        final(result).records().take(old(result).order().len() as int) == old(result).records(),
        forall|i: int|
            old(result).order().len() <= i < final(result).order().len() ==> graph@.dom().contains(
                #[trigger] final(result).order()[i],
            ),
        forall|i: int|
            old(result).order().len() <= i < final(result).order().len()
                ==> #[trigger] final(result).records()[i] == unreachable_record(),
{
    let keys = graph.keys();
    let ghost before = result@;
    let ghost n = result.order().len() as int;
    let mut i: usize = 0;
    while i < keys.len()
        invariant
            i <= keys.len(),
            keys.deep_view().to_set() == graph@.dom(),
            result.wf(),
            before == old(result)@,
            n == old(result).order().len(),
            n <= result.order().len(),
            result.order().take(n) == old(result).order(),
            result.records().take(n) == old(result).records(),
            forall|j: int|
                n <= j < result.order().len() ==> graph@.dom().contains(#[trigger] result.order()[j]),
            forall|j: int|
                n <= j < result.order().len() ==> #[trigger] result.records()[j]
                    == unreachable_record(),
            result@.dom() == before.dom().union(keys.deep_view().take(i as int).to_set()),
            forall|id: Seq<char>| before.dom().contains(id) ==> result@[id] == before[id],
            forall|id: Seq<char>|
                result@.dom().contains(id) && !before.dom().contains(id) ==> result@[id]
                    == unreachable_record(),
        decreases keys.len() - i,
    {
        let key = &keys[i];
        let ghost seen = keys.deep_view().take(i as int);
        let ghost seen2 = keys.deep_view().take(i + 1);
        proof {
            assert(seen2 =~= seen.push(key@));
            assert forall|id: Seq<char>| seen2.contains(id) <==> seen.contains(id) || id == key@ by {
                if seen2.contains(id) {
                    let j = seen2.index_of(id);
                    if j < i {
                        assert(seen[j] == id);
                    }
                }
                if seen.contains(id) {
                    let j = seen.index_of(id);
                    assert(seen2[j] == id);
                }
                if id == key@ {
                    assert(seen2[i as int] == id);
                }
            }
            assert(keys.deep_view().contains(key@)) by {
                assert(keys.deep_view()[i as int] == key@);
            }
            assert(graph@.dom().contains(key@));
        }
        let ghost order = result.order();
        let ghost records = result.records();
        let ghost prev = result@;
        let found = position(&result.ids, key);
        if found.is_none() {
            let node = NodeWithDistanceAndPath { distance: Distance::Infinite, path: Vec::new() };
            proof {
                assert(node@.path =~= Seq::<Seq<char>>::empty());
                assert(node@ == unreachable_record());
                lemma_keyed_push(order, records, key@, node@);
            }
            result.ids.push(key.clone());
            result.nodes.push(node);
            proof {
                assert(result.order() =~= order.push(key@));
                assert(result.records() =~= records.push(node@));
                assert(result.order().take(n) =~= order.take(n));
                assert(result.records().take(n) =~= records.take(n));
                assert(result@ == keyed(order, records).insert(key@, node@));
            }
        } else {
            proof {
                assert(order[found.unwrap() as int] == key@);
                assert(result@.dom().contains(key@));
            }
        }
        proof {
            assert(seen2.to_set() =~= seen.to_set().insert(key@));
            assert(result@.dom() =~= prev.dom().insert(key@));
            assert(result@.dom() =~= before.dom().union(seen2.to_set()));
        }
        i += 1;
    }
    proof {
        assert(keys.deep_view().take(i as int) =~= keys.deep_view());
        assert(result@ =~= resolved(graph@, before));
    }
}

/// Traverses the graph breadth first from `source` and marks the nodes that
/// cannot be reached: the result has a record for the source and for every
/// node of the graph.
pub fn bfs(adjacency_list: &Graph, source: &str) -> (r: Traversal)
    requires
        adjacency_list.wf(),
    ensures
        r.wf(),
        exists|reached: int, tree: Seq<(int, int)>|
            traversed_and_resolved(
                adjacency_list@,
                source@,
                r.order(),
                r.records(),
                reached,
                tree,
            ),
        r@.dom() == adjacency_list@.dom().insert(source@),
        r@[source@] == source_record(source@),
        forall|id: Seq<char>| #[trigger]
            r@.dom().contains(id) ==> if reachable(adjacency_list@, source@, id) {
                fewest_hops(adjacency_list@, source@, id, r@[id])
            } else {
                r@[id] == unreachable_record()
            },
{
    let mut result = traverse(adjacency_list, source);
    let ghost tree = choose|tree: Seq<(int, int)>|
        breadth_first(adjacency_list@, source@, result.order(), result.records(), tree);
    let ghost reached = result.order().len() as int;
    resolve(adjacency_list, &mut result);
    proof {
        assert forall|id: Seq<char>|
            adjacency_list@.dom().contains(id) implies result.order().contains(id) by {
            assert(result@.dom().contains(id));
        }
        assert(traversed_and_resolved(
            adjacency_list@,
            source@,
            result.order(),
            result.records(),
            reached,
            tree,
        ));
        lemma_resolved_is_total(
            adjacency_list@,
            source@,
            result.order(),
            result.records(),
            reached,
            tree,
        );
        lemma_unreachable_is_marked(
            adjacency_list@,
            source@,
            result.order(),
            result.records(),
            reached,
            tree,
        );
    }
    result
}

} // verus!
