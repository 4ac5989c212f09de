//! The route graph: for each airport the list of its edges, every route stored
//! as two edges of one weight, and its construction from route records.

use crate::airports::{Airport, AirportTable};
use crate::keys::{
    keyed, lemma_index_of_unique, lemma_keyed_dom, lemma_keyed_push, lemma_keyed_update, position,
};
use geoutils::Location;
use vstd::prelude::*;

verus! {

/// The adjacency mapping of a graph: for each node, by its identifier, the
/// list of its edges, an edge being the identifier of the neighbour and the
/// weight.
pub type Adjacency = Map<Seq<char>, Seq<(Seq<char>, u64)>>;

/// The edges stored under `id`: none where `id` is no node of the graph.
pub open spec fn edges_of(g: Adjacency, id: Seq<char>) -> Seq<(Seq<char>, u64)> {
    if g.dom().contains(id) {
        g[id]
    } else {
        Seq::empty()
    }
}

/// The graph with one more edge at the end of the list of `from`.
pub open spec fn with_edge(g: Adjacency, from: Seq<char>, to: Seq<char>, weight: u64) -> Adjacency {
    g.insert(from, edges_of(g, from).push((to, weight)))
}

/// The graph with one more route: an edge to `to` at the end of the list of
/// `from`, then an edge to `from` at the end of the list of `to`.
pub open spec fn with_route(g: Adjacency, from: Seq<char>, to: Seq<char>, weight: u64) -> Adjacency {
    with_edge(with_edge(g, from, to, weight), to, from, weight)
}

/// Edge `k` of node `u` has a twin: its target is a node, and that node holds
/// an edge back to `u` of the same weight.
pub open spec fn mirrored(g: Adjacency, u: Seq<char>, k: int) -> bool {
    let edge = g[u][k];
    g.dom().contains(edge.0) && g[edge.0].contains((u, edge.1))
}

/// Every edge of the graph has a twin.
pub open spec fn undirected(g: Adjacency) -> bool {
    forall|u: Seq<char>, k: int| g.dom().contains(u) && 0 <= k < g[u].len() ==> mirrored(g, u, k)
}

/// Adding a route keeps every edge twinned.
pub proof fn lemma_with_route_undirected(g: Adjacency, from: Seq<char>, to: Seq<char>, weight: u64)
    requires
        undirected(g),
    ensures
        undirected(with_route(g, from, to, weight)),
{
    let g1 = with_edge(g, from, to, weight);
    let g2 = with_edge(g1, to, from, weight);
    assert forall|u: Seq<char>, k: int|
        g2.dom().contains(u) && 0 <= k < g2[u].len() implies mirrored(g2, u, k) by {
        let edge = g2[u][k];
        if g.dom().contains(u) && k < g[u].len() {
            assert(g[u][k] == edge);
            assert(mirrored(g, u, k));
            let j = g[edge.0].index_of((u, edge.1));
            assert(g2[edge.0][j] == (u, edge.1));
        } else if edge == (to, weight) && u == from {
            let j = g2[to].len() - 1;
            assert(g2[to][j] == (from, weight));
        } else {
            assert(edge == (from, weight) && u == to);
            if from == to {
                assert(g2[from][k] == (to, weight));
            } else {
                let j = g1[from].len() - 1;
                assert(g2[from][j] == (to, weight));
            }
        }
    }
}

/// An undirected graph of airports. Each node has the list of its edges, an
/// edge being the neighbour's identifier and the weight of the route; a route
/// between two airports is stored as one edge in each airport's list.
#[derive(Debug)]
pub struct Graph {
    ids: Vec<String>,
    lists: Vec<Vec<(String, u64)>>,
    /// For each edge, the index among `ids` of the node that it leads to.
    targets: Vec<Vec<usize>>,
}

impl View for Graph {
    type V = Adjacency;

    closed spec fn view(&self) -> Adjacency {
        keyed(self.ids.deep_view(), self.lists.deep_view())
    }
}

impl Graph {
    /// The identifiers of the nodes, in the order in which the nodes came
    /// into the graph.
    pub closed spec fn order(&self) -> Seq<Seq<char>> {
        self.ids.deep_view()
    }

    /// One list per node, and every edge leads to a node.
    pub closed spec fn indexed(&self) -> bool {
        &&& self.ids.len() == self.lists.len()
        &&& self.ids.len() == self.targets.len()
        &&& self.ids.deep_view().no_duplicates()
        &&& forall|i: int|
            0 <= i < self.ids.len() ==> (#[trigger] self.targets[i]).len() == self.lists[i].len()
        &&& forall|i: int, k: int|
            0 <= i < self.ids.len() && 0 <= k < self.targets[i].len()
                ==> self.leads_to(i, k, #[trigger] self.targets[i][k] as int)
    }

    /// Edge `k` of node `i` leads to node `t`.
    spec fn leads_to(&self, i: int, k: int, t: int) -> bool {
        0 <= t < self.ids.len() && self.ids[t]@ == self.lists[i][k].0@
    }

    /// One list per node, and every edge has its twin.
    pub open spec fn wf(&self) -> bool {
        self.indexed() && undirected(self@)
    }

    pub fn new() -> (graph: Graph)
        ensures
            graph.wf(),
            graph@ == Adjacency::empty(),
    {
        let graph = Graph { ids: Vec::new(), lists: Vec::new(), targets: Vec::new() };
        assert(graph@ =~= Adjacency::empty());
        graph
    }

    /// The number of nodes.
    pub fn len(&self) -> (n: usize)
        requires
            self.wf(),
        ensures
            self@.dom().finite(),
            n == self@.dom().len(),
            n == self.order().len(),
    {
        proof {
            self.lemma_order();
        }
        self.ids.len()
    }

    pub fn is_empty(&self) -> (b: bool)
        requires
            self.wf(),
        ensures
            b == (self@.dom().len() == 0),
            self@.dom().finite(),
    {
        proof {
            self.lemma_order();
        }
        self.ids.len() == 0
    }

    /// The identifiers of the nodes, each once, in the order in which the
    /// nodes came into the graph.
    pub fn keys(&self) -> (ids: &Vec<String>)
        requires
            self.wf(),
        ensures
            ids.deep_view() == self.order(),
            ids.deep_view().no_duplicates(),
            ids.deep_view().to_set() == self@.dom(),
    {
        proof {
            self.lemma_order();
        }
        &self.ids
    }

    /// The nodes of the graph are the identifiers in `order`, each once.
    pub proof fn lemma_order(&self)
        requires
            self.indexed(),
        ensures
            self.order().no_duplicates(),
            self.order().to_set() == self@.dom(),
            self@.dom().finite(),
            self@.dom().len() == self.order().len(),
            forall|i: int|
                0 <= i < self.order().len() ==> self@.dom().contains(#[trigger] self.order()[i]),
    {
        lemma_keyed_dom(self.ids.deep_view(), self.lists.deep_view());
    }

    pub fn contains_key(&self, id: &str) -> (b: bool)
        requires
            self.wf(),
        ensures
            b == self@.dom().contains(id@),
    {
        let key = id.to_owned();
        position(&self.ids, &key).is_some()
    }

    /// The edges of node `id`, in the order in which they were added.
    pub fn get(&self, id: &str) -> (r: Option<&Vec<(String, u64)>>)
        requires
            self.wf(),
        ensures
            match r {
                Some(edges) => self@.dom().contains(id@) && edges.deep_view() == self@[id@],
                None => !self@.dom().contains(id@),
            },
    {
        let key = id.to_owned();
        match position(&self.ids, &key) {
            Some(i) => {
                proof {
                    lemma_index_of_unique(self.ids.deep_view(), i as int);
                }
                Some(&self.lists[i])
            },
            None => None,
        }
    }

    /// The index of node `key` in `order`, if it is a node.
    pub(crate) fn index_of(&self, key: &String) -> (r: Option<usize>)
        requires
            self.indexed(),
        ensures
            match r {
                Some(i) => i < self.order().len() && self.order()[i as int] == key@,
                None => !self@.dom().contains(key@),
            },
    {
        position(&self.ids, key)
    }

    /// The edges of the node at index `i` of `order`.
    pub(crate) fn edges_at(&self, i: usize) -> (edges: &Vec<(String, u64)>)
        requires
            self.indexed(),
            i < self.order().len(),
        ensures
            edges.deep_view() == edges_of(self@, self.order()[i as int]),
    {
        proof {
            lemma_index_of_unique(self.ids.deep_view(), i as int);
        }
        &self.lists[i]
    }

    /// For each edge of the node at index `i` of `order`, the index of the
    /// node that the edge leads to.
    pub(crate) fn targets_at(&self, i: usize) -> (targets: &Vec<usize>)
        requires
            self.indexed(),
            i < self.order().len(),
        ensures
            targets.len() == edges_of(self@, self.order()[i as int]).len(),
            forall|k: int| 0 <= k < targets.len() ==> (#[trigger] targets[k]) < self.order().len(),
            forall|k: int|
                0 <= k < targets.len() ==> self.order()[(#[trigger] targets[k]) as int] == edges_of(
                    self@,
                    self.order()[i as int],
                )[k].0,
    {
        let targets = &self.targets[i];
        proof {
            lemma_index_of_unique(self.ids.deep_view(), i as int);
            assert forall|k: int| 0 <= k < targets.len() implies self.leads_to(
                i as int,
                k,
                #[trigger] targets[k] as int,
            ) by {
                assert(self.leads_to(i as int, k, self.targets[i as int][k] as int));
            }
        }
        targets
    }

    /// The index of node `key`, which comes into the graph without edges
    /// if it is not yet a node of it.
    fn node(&mut self, key: &String) -> (i: usize)
        requires
            old(self).indexed(),
        ensures
            final(self).indexed(),
            i < final(self).ids.len(),
            final(self).ids[i as int]@ == key@,
            old(self).ids.len() <= final(self).ids.len(),
            forall|j: int| 0 <= j < old(self).ids.len() ==> final(self).ids[j] == old(self).ids[j],
            final(self)@ == if old(self)@.dom().contains(key@) {
                old(self)@
            } else {
                old(self)@.insert(key@, Seq::empty())
            },
    {
        match position(&self.ids, key) {
            Some(i) => {
                proof {
                    assert(self.ids.deep_view().contains(key@));
                }
                i
            },
            None => {
                let edges: Vec<(String, u64)> = Vec::new();
                proof {
                    assert(edges.deep_view() =~= Seq::<(Seq<char>, u64)>::empty());
                    lemma_keyed_push(
                        self.ids.deep_view(),
                        self.lists.deep_view(),
                        key@,
                        edges.deep_view(),
                    );
                }
                self.ids.push(key.clone());
                self.lists.push(edges);
                self.targets.push(Vec::new());
                proof {
                    assert(self.ids.deep_view() =~= old(self).ids.deep_view().push(key@));
                    assert(self.lists.deep_view() =~= old(self).lists.deep_view().push(
                        edges.deep_view(),
                    ));
                    assert forall|i: int, k: int|
                        0 <= i < self.ids.len() && 0 <= k < self.targets[i].len()
                        implies self.leads_to(i, k, #[trigger] self.targets[i][k] as int) by {
                        assert(old(self).leads_to(i, k, old(self).targets[i][k] as int));
                    }
                }
                self.ids.len() - 1
            },
        }
    }

    /// Adds, at the end of the list of node `i`, an edge to node `t`.
    fn add_edge(&mut self, i: usize, t: usize, weight: u64)
        requires
            old(self).indexed(),
            i < old(self).ids.len(),
            t < old(self).ids.len(),
        ensures
            final(self).indexed(),
            final(self).ids == old(self).ids,
            final(self)@ == with_edge(
                old(self)@,
                old(self).ids[i as int]@,
                old(self).ids[t as int]@,
                weight,
            ),
    {
        let to = self.ids[t].clone();
        proof {
            lemma_index_of_unique(self.ids.deep_view(), i as int);
            lemma_keyed_update(
                self.ids.deep_view(),
                self.lists.deep_view(),
                i as int,
                self.lists[i as int].deep_view().push((to@, weight)),
            );
        }
        self.lists[i].push((to, weight));
        self.targets[i].push(t);
        proof {
            assert(self.lists[i as int].deep_view() =~= old(self).lists[i as int].deep_view().push(
                (to@, weight),
            ));
            assert(self.lists.deep_view() =~= old(self).lists.deep_view().update(
                i as int,
                old(self).lists[i as int].deep_view().push((to@, weight)),
            ));
            assert forall|j: int, k: int|
                0 <= j < self.ids.len() && 0 <= k < self.targets[j].len()
                implies self.leads_to(j, k, #[trigger] self.targets[j][k] as int) by {
                if j != i || k < old(self).targets[i as int].len() {
                    assert(old(self).leads_to(j, k, old(self).targets[j][k] as int));
                }
            }
        }
    }

    /// Adds the route between `from` and `to`: an edge to `to` at the end of
    /// the list of `from`, and an edge to `from` at the end of the list of
    /// `to`, both of weight `weight`. A node that is not yet in the graph
    /// comes into it. A route from a node to itself gives that node two
    /// edges to itself; a route that is already there is added once more.
    pub fn add_route(&mut self, from: &str, to: &str, weight: u64)
        requires
            old(self).wf(),
        ensures
            final(self).wf(),
            final(self)@ == with_route(old(self)@, from@, to@, weight),
    {
        let from = from.to_owned();
        let to = to.to_owned();
        proof {
            lemma_with_route_undirected(self@, from@, to@, weight);
        }
        let i = self.node(&from);
        let t = self.node(&to);
        self.add_edge(i, t, weight);
        self.add_edge(t, i, weight);
        proof {
            assert(self@ =~= with_route(old(self)@, from@, to@, weight));
        }
    }
}

/// A route record holds at least this many fields.
pub const ROUTE_FIELDS: usize = 6;

/// The field of a route record that holds the identifier of the airport of departure.
pub const SOURCE_FIELD: usize = 3;

/// The field of a route record that holds the identifier of the airport of arrival.
pub const DESTINATION_FIELD: usize = 5;

/// Why a route record was passed over.
#[derive(Debug, Clone, Copy, PartialEq, Eq)]
pub enum RouteIssue {
    /// The record has too few fields.
    InvalidFormat,
    /// The coordinates of one of the two airports are not known.
    MissingLocation,
    /// No distance could be computed between the two airports.
    NoDistance,
}

/// What reading the route records gave: the graph, how many records became
/// routes of it and how many did not, and the records passed over, each by
/// its index among the records and with the reason.
#[derive(Debug)]
pub struct RouteLoad {
    pub graph: Graph,
    pub valid_routes: usize,
    pub invalid_routes: usize,
    pub skipped: Vec<(usize, RouteIssue)>,
}

/// `metres` is what measuring the distance from `from` to `to` has given, or
/// may give: a number of metres, or nothing.
pub uninterp spec fn measured_between(from: Location, to: Location, metres: Option<u64>) -> bool;

/// Calls `geoutils::Location::distance_to`, which computes the length of the
/// geodesic between two points by Vincenty's inverse formula, and reads the
/// result with `geoutils::Distance::meters`, cut down to whole metres.
/// `None` stands for the error that `distance_to` returns when the formula
/// does not converge. Trusted: the result is what measuring from `from` to
/// `to` gave. Nothing is claimed of the number, nor that a second call
/// would give it again: the formula works with the trigonometric functions
/// of std, whose precision std leaves open from one platform to another and
/// from one call to the next.
#[verifier::external_body]
fn metres_between(from: &Location, to: &Location) -> (r: Option<u64>)
    ensures
        measured_between(*from, *to, r),
{
    match from.distance_to(to) {
        Ok(distance) => Some(distance.meters() as u64),
        Err(_) => None,
    }
}

/// The record names two airports, and the coordinates of both are known.
pub open spec fn joinable(record: Seq<Seq<char>>, airports: Map<Seq<char>, Airport>) -> bool {
    &&& record.len() >= ROUTE_FIELDS
    &&& airports.dom().contains(record[SOURCE_FIELD as int])
    &&& airports.dom().contains(record[DESTINATION_FIELD as int])
}

/// The distance measured for record `i`, if one was.
pub open spec fn distance_at(measured: Seq<Option<u64>>, i: int) -> Option<u64> {
    if 0 <= i < measured.len() {
        measured[i]
    } else {
        None
    }
}

/// `metres` is what measuring gave for the record: for a record that joins
/// two airports of the store, the distance from the location of the airport
/// of departure to the location of the airport of arrival; for any other
/// record, nothing.
pub open spec fn measures_record(
    record: Seq<Seq<char>>,
    airports: Map<Seq<char>, Airport>,
    metres: Option<u64>,
) -> bool {
    if joinable(record, airports) {
        measured_between(
            airports[record[SOURCE_FIELD as int]].location,
            airports[record[DESTINATION_FIELD as int]].location,
            metres,
        )
    } else {
        metres is None
    }
}

/// `measured` holds, record by record, what measuring gave for the records.
pub open spec fn measures(
    records: Seq<Seq<Seq<char>>>,
    airports: Map<Seq<char>, Airport>,
    measured: Seq<Option<u64>>,
) -> bool {
    &&& measured.len() == records.len()
    &&& forall|i: int|
        0 <= i < records.len() ==> measures_record(#[trigger] records[i], airports, measured[i])
}

/// The weight of `edge`, an edge of node `u`, was measured between the
/// locations of the two airports that the edge joins, one way or the other.
pub open spec fn weight_measured(
    airports: Map<Seq<char>, Airport>,
    u: Seq<char>,
    edge: (Seq<char>, u64),
) -> bool {
    &&& airports.dom().contains(u)
    &&& airports.dom().contains(edge.0)
    &&& (measured_between(airports[u].location, airports[edge.0].location, Some(edge.1))
        || measured_between(airports[edge.0].location, airports[u].location, Some(edge.1)))
}

/// Every edge of the graph joins two airports of the store, and its weight
/// was measured between their locations.
pub open spec fn weights_measured(g: Adjacency, airports: Map<Seq<char>, Airport>) -> bool {
    forall|u: Seq<char>, k: int|
        g.dom().contains(u) && 0 <= k < g[u].len() ==> weight_measured(
            airports,
            u,
            #[trigger] g[u][k],
        )
}

/// What is wrong with a route record, if anything, given the distance that
/// was measured between its airports.
pub open spec fn route_issue(
    record: Seq<Seq<char>>,
    airports: Map<Seq<char>, Airport>,
    measured: Option<u64>,
) -> Option<RouteIssue> {
    if record.len() < ROUTE_FIELDS {
        Some(RouteIssue::InvalidFormat)
    } else if !joinable(record, airports) {
        Some(RouteIssue::MissingLocation)
    } else if measured is None {
        Some(RouteIssue::NoDistance)
    } else {
        None
    }
}

/// The graph that the records give when read in order, `measured[i]` being
/// the distance between the airports of record `i`: each record with nothing
/// wrong adds its route to the graph of the records before it.
pub open spec fn routes_graph(
    records: Seq<Seq<Seq<char>>>,
    airports: Map<Seq<char>, Airport>,
    measured: Seq<Option<u64>>,
) -> Adjacency
    decreases records.len(),
{
    if records.len() == 0 {
        Map::empty()
    } else {
        let earlier = routes_graph(records.drop_last(), airports, measured);
        let record = records.last();
        let distance = distance_at(measured, records.len() - 1);
        if route_issue(record, airports, distance) is None {
            with_route(
                earlier,
                record[SOURCE_FIELD as int],
                record[DESTINATION_FIELD as int],
                distance->0,
            )
        } else {
            earlier
        }
    }
}

/// The records that are passed over, in order, each with its index and reason.
pub open spec fn route_issues(
    records: Seq<Seq<Seq<char>>>,
    airports: Map<Seq<char>, Airport>,
    measured: Seq<Option<u64>>,
) -> Seq<(usize, RouteIssue)>
    decreases records.len(),
{
    if records.len() == 0 {
        Seq::empty()
    } else {
        let earlier = route_issues(records.drop_last(), airports, measured);
        let distance = distance_at(measured, records.len() - 1);
        match route_issue(records.last(), airports, distance) {
            Some(issue) => earlier.push(((records.len() - 1) as usize, issue)),
            None => earlier,
        }
    }
}

/// How many of the records are invalid for want of airports: they have too
/// few fields, or name an airport that the coordinate store does not know.
pub open spec fn unjoinable_count(
    records: Seq<Seq<Seq<char>>>,
    airports: Map<Seq<char>, Airport>,
) -> nat
    decreases records.len(),
{
    if records.len() == 0 {
        0
    } else {
        let earlier = unjoinable_count(records.drop_last(), airports);
        if joinable(records.last(), airports) {
            earlier
        } else {
            earlier + 1
        }
    }
}

/// How many of the records join two airports of the coordinate store between
/// which no distance was measured.
pub open spec fn unmeasured_count(
    records: Seq<Seq<Seq<char>>>,
    airports: Map<Seq<char>, Airport>,
    measured: Seq<Option<u64>>,
) -> nat
    decreases records.len(),
{
    if records.len() == 0 {
        0
    } else {
        let earlier = unmeasured_count(records.drop_last(), airports, measured);
        if joinable(records.last(), airports) && distance_at(measured, records.len() - 1) is None {
            earlier + 1
        } else {
            earlier
        }
    }
}

/// The records passed over are the records without two known airports and
/// the records without a distance, each once: a record that names an airport
/// unknown to the coordinate store adds one to their number, whatever was
/// measured.
pub proof fn lemma_route_counts(
    records: Seq<Seq<Seq<char>>>,
    airports: Map<Seq<char>, Airport>,
    measured: Seq<Option<u64>>,
)
    ensures
        route_issues(records, airports, measured).len() == unjoinable_count(records, airports)
            + unmeasured_count(records, airports, measured),
        unjoinable_count(records, airports) + unmeasured_count(records, airports, measured)
            <= records.len(),
    decreases records.len(),
{
    if records.len() > 0 {
        lemma_route_counts(records.drop_last(), airports, measured);
    }
}

/// Where a distance was measured for every record that joins two airports of
/// the coordinate store, the records passed over are the records without two
/// known airports, and no others.
pub proof fn lemma_all_measured(
    records: Seq<Seq<Seq<char>>>,
    airports: Map<Seq<char>, Airport>,
    measured: Seq<Option<u64>>,
)
    requires
        forall|i: int|
            0 <= i < records.len() && joinable(#[trigger] records[i], airports)
                ==> distance_at(measured, i) is Some,
    ensures
        unmeasured_count(records, airports, measured) == 0,
        route_issues(records, airports, measured).len() == unjoinable_count(records, airports),
    decreases records.len(),
{
    lemma_route_counts(records, airports, measured);
    if records.len() > 0 {
        let shorter = records.drop_last();
        assert forall|i: int|
            0 <= i < shorter.len() && joinable(#[trigger] shorter[i], airports)
            implies distance_at(measured, i) is Some by {
            assert(shorter[i] == records[i]);
        }
        lemma_all_measured(shorter, airports, measured);
        assert(records.last() == records[records.len() - 1]);
    }
}

/// The two airports that a route record joins: the airport of departure and
/// the airport of arrival, as the coordinate store has them. There are none
/// where the record has too few fields or names an airport that the store
/// does not know.
pub fn endpoints<'a>(
    record: &Vec<String>,
    airports: &'a AirportTable,
) -> (r: Option<(&'a Airport, &'a Airport)>)
    requires
        airports.wf(),
    ensures
        r is Some <==> joinable(record.deep_view(), airports@),
        r matches Some((from, to)) ==> {
            &&& *from == airports@[record.deep_view()[SOURCE_FIELD as int]]
            &&& *to == airports@[record.deep_view()[DESTINATION_FIELD as int]]
        },
{
    if record.len() < ROUTE_FIELDS {
        return None;
    }
    let from = airports.get(record[SOURCE_FIELD].as_str());
    let to = airports.get(record[DESTINATION_FIELD].as_str());
    match (from, to) {
        (Some(from), Some(to)) => Some((from, to)),
        _ => None,
    }
}

/// Measures, for each record that joins two airports of the table, the
/// distance between the two in metres: from the location of the airport of
/// departure to the location of the airport of arrival. The result has one
/// entry per record; an entry is `None` where the record joins no airports
/// or where no distance could be computed.
pub fn measure_routes(
    records: &Vec<Vec<String>>,
    airports: &AirportTable,
) -> (measured: Vec<Option<u64>>)
    requires
        airports.wf(),
    ensures
        measures(records.deep_view(), airports@, measured@),
{
    let mut measured: Vec<Option<u64>> = Vec::new();
    let mut i: usize = 0;
    while i < records.len()
        invariant
            i <= records.len(),
            airports.wf(),
            measured.len() == i,
            forall|j: int|
                0 <= j < i ==> measures_record(
                    #[trigger] records.deep_view()[j],
                    airports@,
                    measured[j],
                ),
        decreases records.len() - i,
    {
        let record = &records[i];
        assert(records.deep_view()[i as int] == record.deep_view());
        let distance = match endpoints(record, airports) {
            Some((from, to)) => metres_between(&from.location, &to.location),
            None => None,
        };
        measured.push(distance);
        i += 1;
    }
    measured
}

/// Builds the graph from the route records and the distances measured for
/// them. A record with too few fields, one that names an airport without
/// coordinates and one without a distance are passed over, counted as invalid
/// and reported; each of the others adds its route and is counted as valid.
pub fn link_routes(
    records: &Vec<Vec<String>>,
    airports: &AirportTable,
    measured: &Vec<Option<u64>>,
) -> (r: RouteLoad)
    requires
        airports.wf(),
    ensures
        r.graph.wf(),
        r.graph@ == routes_graph(records.deep_view(), airports@, measured@),
        r.skipped@ == route_issues(records.deep_view(), airports@, measured@),
        r.invalid_routes == r.skipped.len(),
        r.invalid_routes == unjoinable_count(records.deep_view(), airports@) + unmeasured_count(
            records.deep_view(),
            airports@,
            measured@,
        ),
        r.valid_routes + r.invalid_routes == records.len(),
        within(r.graph@, airports@.dom()),
{
    let mut graph = Graph::new();
    let mut skipped: Vec<(usize, RouteIssue)> = Vec::new();
    let mut valid_routes: usize = 0;
    let mut i: usize = 0;
    while i < records.len()
        invariant
            i <= records.len(),
            airports.wf(),
            graph.wf(),
            graph@ == routes_graph(records.deep_view().take(i as int), airports@, measured@),
            skipped@ == route_issues(records.deep_view().take(i as int), airports@, measured@),
            valid_routes + skipped.len() == i,
        decreases records.len() - i,
    {
        let record = &records[i];
        proof {
            let all = records.deep_view();
            assert(all.take(i + 1).drop_last() =~= all.take(i as int));
            assert(all.take(i + 1).last() == record.deep_view());
        }
        let distance = if i < measured.len() {
            measured[i]
        } else {
            None
        };
        if record.len() < ROUTE_FIELDS {
            skipped.push((i, RouteIssue::InvalidFormat));
        } else {
            let from = record[SOURCE_FIELD].as_str();
            let to = record[DESTINATION_FIELD].as_str();
            if !airports.contains_key(from) || !airports.contains_key(to) {
                skipped.push((i, RouteIssue::MissingLocation));
            } else {
                match distance {
                    Some(weight) => {
                        graph.add_route(from, to, weight);
                        valid_routes += 1;
                    },
                    None => {
                        skipped.push((i, RouteIssue::NoDistance));
                    },
                }
            }
        }
        i += 1;
    }
    proof {
        assert(records.deep_view().take(i as int) =~= records.deep_view());
        lemma_route_counts(records.deep_view(), airports@, measured@);
        lemma_routes_graph_within_store(records.deep_view(), airports@, measured@);
    }
    let invalid_routes = skipped.len();
    RouteLoad { graph, valid_routes, invalid_routes, skipped }
}

/// Builds the graph from route records, each a list of fields, and the
/// coordinate store: measures the distance between the two airports of each
/// record that names two airports of the store, and links the routes with
/// those distances as weights.
pub fn load_adjacency_list_from_csv(
    records: &Vec<Vec<String>>,
    airports: &AirportTable,
) -> (r: RouteLoad)
    requires
        airports.wf(),
    ensures
        r.graph.wf(),
        weights_measured(r.graph@, airports@),
        r.invalid_routes == r.skipped.len(),
        r.invalid_routes >= unjoinable_count(records.deep_view(), airports@),
        r.valid_routes + r.invalid_routes == records.len(),
        exists|measured: Seq<Option<u64>>|
            {
                &&& #[trigger] measures(records.deep_view(), airports@, measured)
                &&& r.graph@ == routes_graph(records.deep_view(), airports@, measured)
                &&& r.skipped@ == route_issues(records.deep_view(), airports@, measured)
                &&& r.invalid_routes == unjoinable_count(records.deep_view(), airports@)
                    + unmeasured_count(records.deep_view(), airports@, measured)
            },
{
    let measured = measure_routes(records, airports);
    proof {
        lemma_weights_are_measured(records.deep_view(), airports@, measured@);
    }
    link_routes(records, airports, &measured)
}

/// A route between two airports of the store, with a weight measured between
/// their locations, keeps the weights of the graph measured.
pub proof fn lemma_with_route_measured(
    g: Adjacency,
    airports: Map<Seq<char>, Airport>,
    from: Seq<char>,
    to: Seq<char>,
    weight: u64,
)
    requires
        weights_measured(g, airports),
        airports.dom().contains(from),
        airports.dom().contains(to),
        measured_between(airports[from].location, airports[to].location, Some(weight)),
    ensures
        weights_measured(with_route(g, from, to, weight), airports),
{
    let g1 = with_edge(g, from, to, weight);
    let g2 = with_edge(g1, to, from, weight);
    assert forall|u: Seq<char>, k: int|
        g2.dom().contains(u) && 0 <= k < g2[u].len() implies weight_measured(
        airports,
        u,
        #[trigger] g2[u][k],
    ) by {
        if g.dom().contains(u) && k < g[u].len() {
            assert(g2[u][k] == g[u][k]);
        }
    }
}

/// In a graph built from route records with the distances that measuring
/// gave for them, every edge joins two airports of the store, and its weight
/// is a distance measured between the locations of those two airports.
pub proof fn lemma_weights_are_measured(
    records: Seq<Seq<Seq<char>>>,
    airports: Map<Seq<char>, Airport>,
    measured: Seq<Option<u64>>,
)
    requires
        forall|i: int|
            0 <= i < records.len() ==> measures_record(
                #[trigger] records[i],
                airports,
                distance_at(measured, i),
            ),
    ensures
        weights_measured(routes_graph(records, airports, measured), airports),
    decreases records.len(),
{
    if records.len() > 0 {
        let shorter = records.drop_last();
        let last = records.len() - 1;
        assert forall|i: int| 0 <= i < shorter.len() implies measures_record(
            #[trigger] shorter[i],
            airports,
            distance_at(measured, i),
        ) by {
            assert(shorter[i] == records[i]);
        }
        lemma_weights_are_measured(shorter, airports, measured);
        let record = records[last];
        assert(records.last() == record);
        let distance = distance_at(measured, last);
        if route_issue(record, airports, distance) is None {
            assert(measures_record(record, airports, distance));
            lemma_with_route_measured(
                routes_graph(shorter, airports, measured),
                airports,
                record[SOURCE_FIELD as int],
                record[DESTINATION_FIELD as int],
                distance->0,
            );
        }
    }
}

/// In a graph built from route records every edge has a twin: where the
/// list of `u` holds an edge to `v`, the list of `v` holds an edge to `u` of
/// the same weight.
pub proof fn lemma_routes_graph_undirected(
    records: Seq<Seq<Seq<char>>>,
    airports: Map<Seq<char>, Airport>,
    measured: Seq<Option<u64>>,
)
    ensures
        undirected(routes_graph(records, airports, measured)),
    decreases records.len(),
{
    if records.len() > 0 {
        lemma_routes_graph_undirected(records.drop_last(), airports, measured);
        let earlier = routes_graph(records.drop_last(), airports, measured);
        let record = records.last();
        let distance = distance_at(measured, records.len() - 1);
        if route_issue(record, airports, distance) is None {
            lemma_with_route_undirected(
                earlier,
                record[SOURCE_FIELD as int],
                record[DESTINATION_FIELD as int],
                distance->0,
            );
        }
    }
}

/// The graph holds only nodes of `ids`: every node is one, and every edge
/// leads to one.
pub open spec fn within(g: Adjacency, ids: Set<Seq<char>>) -> bool {
    &&& forall|id: Seq<char>| #[trigger] g.dom().contains(id) ==> ids.contains(id)
    &&& forall|id: Seq<char>, k: int|
        g.dom().contains(id) && 0 <= k < g[id].len() ==> ids.contains((#[trigger] g[id][k]).0)
}

/// A route between two nodes of `ids` keeps the graph within `ids`.
pub proof fn lemma_with_route_within(
    g: Adjacency,
    from: Seq<char>,
    to: Seq<char>,
    weight: u64,
    ids: Set<Seq<char>>,
)
    requires
        within(g, ids),
        ids.contains(from),
        ids.contains(to),
    ensures
        within(with_route(g, from, to, weight), ids),
{
    let g1 = with_edge(g, from, to, weight);
    let g2 = with_edge(g1, to, from, weight);
    assert forall|id: Seq<char>, k: int|
        g2.dom().contains(id) && 0 <= k < g2[id].len() implies ids.contains(
        (#[trigger] g2[id][k]).0,
    ) by {
        if g.dom().contains(id) && k < g[id].len() {
            assert(g2[id][k] == g[id][k]);
        }
    }
}

/// A graph built from route records holds only airports of the coordinate
/// store: a route that names any other airport adds nothing to the graph.
pub proof fn lemma_routes_graph_within_store(
    records: Seq<Seq<Seq<char>>>,
    airports: Map<Seq<char>, Airport>,
    measured: Seq<Option<u64>>,
)
    ensures
        within(routes_graph(records, airports, measured), airports.dom()),
    decreases records.len(),
{
    if records.len() > 0 {
        lemma_routes_graph_within_store(records.drop_last(), airports, measured);
        let earlier = routes_graph(records.drop_last(), airports, measured);
        let record = records.last();
        let distance = distance_at(measured, records.len() - 1);
        if route_issue(record, airports, distance) is None {
            lemma_with_route_within(
                earlier,
                record[SOURCE_FIELD as int],
                record[DESTINATION_FIELD as int],
                distance->0,
                airports.dom(),
            );
        }
    }
}

/// The graph and the records passed over depend on the records, on the
/// coordinate store and on the distances measured between the airports of the
/// records that name two airports of the store, and on nothing else: built
/// twice with the same distances, they are the same.
pub proof fn lemma_routes_graph_determined(
    records: Seq<Seq<Seq<char>>>,
    airports: Map<Seq<char>, Airport>,
    measured1: Seq<Option<u64>>,
    measured2: Seq<Option<u64>>,
)
    requires
        forall|i: int|
            0 <= i < records.len() && joinable(#[trigger] records[i], airports)
                ==> distance_at(measured1, i) == distance_at(measured2, i),
    ensures
        routes_graph(records, airports, measured1) == routes_graph(records, airports, measured2),
        route_issues(records, airports, measured1) == route_issues(records, airports, measured2),
    decreases records.len(),
{
    if records.len() > 0 {
        let shorter = records.drop_last();
        assert forall|i: int|
            0 <= i < shorter.len() && joinable(#[trigger] shorter[i], airports)
            implies distance_at(measured1, i) == distance_at(measured2, i) by {
            assert(shorter[i] == records[i]);
        }
        lemma_routes_graph_determined(shorter, airports, measured1, measured2);
        assert(records.last() == records[records.len() - 1]);
    }
}

/// The neighbours of node `id`, in the order of its edges.
pub open spec fn neighbours(g: Adjacency, id: Seq<char>) -> Seq<Seq<char>> {
    edges_of(g, id).map_values(|edge: (Seq<char>, u64)| edge.0)
}

/// Two graphs have the same nodes, and each node the same neighbours in the
/// same order; the weights may differ.
pub open spec fn same_shape(g1: Adjacency, g2: Adjacency) -> bool {
    &&& g1.dom() == g2.dom()
    &&& forall|id: Seq<char>| #[trigger] neighbours(g1, id) == neighbours(g2, id)
}

/// The same route added to two graphs of one shape leaves them of one shape.
pub proof fn lemma_with_route_same_shape(
    g1: Adjacency,
    g2: Adjacency,
    from: Seq<char>,
    to: Seq<char>,
    weight1: u64,
    weight2: u64,
)
    requires
        same_shape(g1, g2),
    ensures
        same_shape(with_route(g1, from, to, weight1), with_route(g2, from, to, weight2)),
{
    let h1 = with_route(g1, from, to, weight1);
    let h2 = with_route(g2, from, to, weight2);
    assert(h1.dom() =~= h2.dom());
    assert forall|id: Seq<char>| #[trigger] neighbours(h1, id) == neighbours(h2, id) by {
        assert(neighbours(g1, id) == neighbours(g2, id));
        assert(edges_of(g1, id).len() == neighbours(g1, id).len());
        assert(edges_of(g2, id).len() == neighbours(g2, id).len());
        assert forall|k: int| 0 <= k < edges_of(g1, id).len() implies edges_of(g1, id)[k].0
            == edges_of(g2, id)[k].0 by {
            assert(neighbours(g1, id)[k] == neighbours(g2, id)[k]);
        }
        assert(neighbours(h1, id) =~= neighbours(h2, id));
    }
}

/// Which airports a graph built from route records joins does not depend on
/// the distances: built twice from the same records and the same coordinate
/// store, with a distance measured for the same records, the graph has the
/// same nodes, and each node the same neighbours in the same order.
pub proof fn lemma_routes_graph_shape(
    records: Seq<Seq<Seq<char>>>,
    airports: Map<Seq<char>, Airport>,
    measured1: Seq<Option<u64>>,
    measured2: Seq<Option<u64>>,
)
    requires
        forall|i: int|
            0 <= i < records.len() && joinable(#[trigger] records[i], airports)
                ==> (distance_at(measured1, i) is Some <==> distance_at(measured2, i) is Some),
    ensures
        same_shape(
            routes_graph(records, airports, measured1),
            routes_graph(records, airports, measured2),
        ),
    decreases records.len(),
{
    if records.len() > 0 {
        let shorter = records.drop_last();
        let last = records.len() - 1;
        assert forall|i: int|
            0 <= i < shorter.len() && joinable(#[trigger] shorter[i], airports)
            implies (distance_at(measured1, i) is Some <==> distance_at(measured2, i) is Some) by {
            assert(shorter[i] == records[i]);
        }
        lemma_routes_graph_shape(shorter, airports, measured1, measured2);
        let record = records[last];
        assert(records.last() == record);
        if route_issue(record, airports, distance_at(measured1, last)) is None {
            lemma_with_route_same_shape(
                routes_graph(shorter, airports, measured1),
                routes_graph(shorter, airports, measured2),
                record[SOURCE_FIELD as int],
                record[DESTINATION_FIELD as int],
                distance_at(measured1, last)->0,
                distance_at(measured2, last)->0,
            );
        }
    }
}

} // verus!
