use airgraph::airports::{load_airports_from_csv, AirportTable};
use airgraph::graph::{
    endpoints, link_routes, load_adjacency_list_from_csv, measure_routes, Graph, RouteIssue,
};

fn record(fields: &[&str]) -> Vec<String> {
    fields.iter().map(|f| f.to_string()).collect()
}

fn airport_record(id: &str, latitude: &str, longitude: &str) -> Vec<String> {
    record(&["1", "Name", "City", "Country", "x", id, "ICAO", latitude, longitude])
}

fn route_record(from: &str, to: &str) -> Vec<String> {
    record(&["0", "AL", "410", from, "2965", to, "2990", "", "0", "CR2"])
}

fn edge(to: &str, weight: u64) -> (String, u64) {
    (to.to_string(), weight)
}

fn store() -> AirportTable {
    let records = vec![
        airport_record("KTM", "27.740068", "85.337576"),
        airport_record("PKR", "27.740286", "85.337059"),
        airport_record("BER", "52.518611", "13.408056"),
        airport_record("SVO", "55.751667", "37.617778"),
        airport_record("NUL", "0.0", "0.0"),
        airport_record("ANT", "0.0", "180.0"),
    ];
    load_airports_from_csv(&records).airports
}

#[test]
fn new_graph_is_empty() {
    let graph = Graph::new();
    assert_eq!(graph.len(), 0);
    assert!(graph.is_empty());
    assert!(graph.get("A").is_none());
    assert!(graph.keys().is_empty());
}

#[test]
fn route_is_stored_in_both_directions() {
    let mut graph = Graph::new();
    graph.add_route("A", "B", 7);
    assert_eq!(graph.len(), 2);
    assert_eq!(graph.keys(), &vec!["A".to_string(), "B".to_string()]);
    assert_eq!(graph.get("A"), Some(&vec![edge("B", 7)]));
    assert_eq!(graph.get("B"), Some(&vec![edge("A", 7)]));
    assert!(graph.contains_key("A"));
    assert!(!graph.contains_key("C"));
}

#[test]
fn every_edge_has_a_twin() {
    let mut graph = Graph::new();
    graph.add_route("A", "B", 7);
    graph.add_route("B", "C", 9);
    graph.add_route("C", "A", 11);
    graph.add_route("A", "B", 8);
    for u in graph.keys() {
        for (v, weight) in graph.get(u).expect("a key has a list") {
            let back = graph.get(v).expect("an edge leads to a node");
            assert!(back.contains(&(u.clone(), *weight)));
        }
    }
}

#[test]
fn self_loop_gives_two_edges_to_itself() {
    let mut graph = Graph::new();
    graph.add_route("A", "A", 0);
    assert_eq!(graph.len(), 1);
    assert_eq!(graph.get("A"), Some(&vec![edge("A", 0), edge("A", 0)]));
}

#[test]
fn parallel_routes_are_not_merged() {
    let mut graph = Graph::new();
    graph.add_route("A", "B", 5);
    graph.add_route("B", "A", 6);
    graph.add_route("A", "B", 5);
    assert_eq!(graph.get("A"), Some(&vec![edge("B", 5), edge("B", 6), edge("B", 5)]));
    assert_eq!(graph.get("B"), Some(&vec![edge("A", 5), edge("A", 6), edge("A", 5)]));
}

#[test]
fn edges_keep_the_order_of_the_routes() {
    let mut graph = Graph::new();
    graph.add_route("A", "C", 3);
    graph.add_route("B", "A", 2);
    graph.add_route("A", "D", 4);
    assert_eq!(graph.get("A"), Some(&vec![edge("C", 3), edge("B", 2), edge("D", 4)]));
    assert_eq!(
        graph.keys(),
        &vec!["A".to_string(), "C".to_string(), "B".to_string(), "D".to_string()]
    );
}

#[test]
fn link_routes_uses_the_given_distances() {
    let airports = store();
    let routes = vec![route_record("KTM", "PKR"), route_record("BER", "SVO"), route_record("PKR", "BER")];
    let load = link_routes(&routes, &airports, &vec![Some(10), Some(20), Some(30)]);
    assert_eq!(load.valid_routes, 3);
    assert_eq!(load.invalid_routes, 0);
    assert!(load.skipped.is_empty());
    assert_eq!(load.graph.get("KTM"), Some(&vec![edge("PKR", 10)]));
    assert_eq!(load.graph.get("PKR"), Some(&vec![edge("KTM", 10), edge("BER", 30)]));
    assert_eq!(load.graph.get("BER"), Some(&vec![edge("SVO", 20), edge("PKR", 30)]));
    assert_eq!(load.graph.get("SVO"), Some(&vec![edge("BER", 20)]));
}

#[test]
fn link_routes_reports_each_issue() {
    let airports = store();
    let routes = vec![
        record(&["0", "AL", "410", "KTM", "2965"]),
        route_record("KTM", "ZZ"),
        route_record("KTM", "PKR"),
        route_record("BER", "SVO"),
        route_record("YY", "KTM"),
    ];
    let load = link_routes(&routes, &airports, &vec![None, None, None, Some(5)]);
    assert_eq!(load.valid_routes, 1);
    assert_eq!(load.invalid_routes, 4);
    assert_eq!(
        load.skipped,
        vec![
            (0, RouteIssue::InvalidFormat),
            (1, RouteIssue::MissingLocation),
            (2, RouteIssue::NoDistance),
            (4, RouteIssue::MissingLocation),
        ]
    );
    assert_eq!(load.graph.len(), 2);
    assert_eq!(load.graph.get("BER"), Some(&vec![edge("SVO", 5)]));
}

#[test]
fn link_routes_without_distances_links_nothing() {
    let airports = store();
    let routes = vec![route_record("KTM", "PKR")];
    let load = link_routes(&routes, &airports, &Vec::new());
    assert_eq!(load.valid_routes, 0);
    assert_eq!(load.skipped, vec![(0, RouteIssue::NoDistance)]);
    assert!(load.graph.is_empty());
}

#[test]
fn measured_distance_is_whole_metres() {
    let airports = store();
    let routes = vec![route_record("KTM", "PKR"), route_record("KTM", "ZZ"), record(&["short"])];
    let measured = measure_routes(&routes, &airports);
    assert_eq!(measured, vec![Some(56), None, None]);
}

#[test]
fn measured_distance_between_cities() {
    let airports = store();
    let routes = vec![route_record("BER", "SVO"), route_record("SVO", "BER")];
    let measured = measure_routes(&routes, &airports);
    let there = measured[0].expect("the formula converges");
    let back = measured[1].expect("the formula converges");
    assert!(there > 1_600_000 && there < 1_620_000);
    assert_eq!(there, back);
}

#[test]
fn distance_of_an_airport_to_itself_is_zero() {
    let airports = store();
    let routes = vec![route_record("BER", "BER")];
    let load = load_adjacency_list_from_csv(&routes, &airports);
    assert_eq!(load.valid_routes, 1);
    assert_eq!(load.graph.get("BER"), Some(&vec![edge("BER", 0), edge("BER", 0)]));
}

#[test]
fn route_without_a_distance_is_counted_invalid() {
    let airports = store();
    let routes = vec![route_record("NUL", "ANT"), route_record("KTM", "PKR")];
    let load = load_adjacency_list_from_csv(&routes, &airports);
    assert_eq!(load.skipped, vec![(0, RouteIssue::NoDistance)]);
    assert_eq!(load.valid_routes, 1);
    assert_eq!(load.invalid_routes, 1);
    assert!(!load.graph.contains_key("NUL"));
    assert!(!load.graph.contains_key("ANT"));
}

#[test]
fn route_to_unknown_airport_is_dropped() {
    let airports = store();
    let routes = vec![route_record("KTM", "PKR"), route_record("KTM", "ZZ"), route_record("ZZ", "PKR")];
    let load = load_adjacency_list_from_csv(&routes, &airports);
    assert_eq!(load.valid_routes, 1);
    assert_eq!(load.invalid_routes, 2);
    assert_eq!(
        load.skipped,
        vec![(1, RouteIssue::MissingLocation), (2, RouteIssue::MissingLocation)]
    );
    assert!(!load.graph.contains_key("ZZ"));
    for u in load.graph.keys() {
        for (v, _) in load.graph.get(u).expect("a key has a list") {
            assert_ne!(v, "ZZ");
        }
    }
    assert_eq!(load.graph.get("KTM"), Some(&vec![edge("PKR", 56)]));
    assert_eq!(load.graph.get("PKR"), Some(&vec![edge("KTM", 56)]));
}

#[test]
fn short_route_record_is_counted_invalid() {
    let airports = store();
    let routes = vec![record(&["0", "AL", "410", "KTM", "2965"]), route_record("KTM", "PKR")];
    let load = load_adjacency_list_from_csv(&routes, &airports);
    assert_eq!(load.valid_routes, 1);
    assert_eq!(load.invalid_routes, 1);
    assert_eq!(load.skipped, vec![(0, RouteIssue::InvalidFormat)]);
}

#[test]
fn building_twice_gives_the_same_graph() {
    let airports = store();
    let routes = vec![
        route_record("KTM", "PKR"),
        route_record("BER", "SVO"),
        route_record("SVO", "KTM"),
        route_record("BER", "SVO"),
    ];
    let first = load_adjacency_list_from_csv(&routes, &airports);
    let second = load_adjacency_list_from_csv(&routes, &airports);
    assert_eq!(first.graph.keys(), second.graph.keys());
    for id in first.graph.keys() {
        assert_eq!(first.graph.get(id), second.graph.get(id));
    }
    assert_eq!(first.valid_routes, second.valid_routes);
    assert_eq!(first.skipped, second.skipped);
}

#[test]
fn empty_routes_give_empty_graph() {
    let airports = store();
    let load = load_adjacency_list_from_csv(&Vec::new(), &airports);
    assert!(load.graph.is_empty());
    assert_eq!(load.valid_routes, 0);
    assert_eq!(load.invalid_routes, 0);
}

#[test]
fn endpoints_are_departure_then_arrival() {
    let airports = store();
    let (from, to) = endpoints(&route_record("BER", "SVO"), &airports).expect("both are known");
    assert_eq!(from.location.latitude(), 52.518611);
    assert_eq!(from.location.longitude(), 13.408056);
    assert_eq!(to.location.latitude(), 55.751667);
    assert_eq!(to.location.longitude(), 37.617778);
    let (back_from, back_to) =
        endpoints(&route_record("SVO", "BER"), &airports).expect("both are known");
    assert_eq!(back_from.location, to.location);
    assert_eq!(back_to.location, from.location);
}

#[test]
fn endpoints_of_a_record_that_joins_nothing() {
    let airports = store();
    assert!(endpoints(&route_record("BER", "ZZ"), &airports).is_none());
    assert!(endpoints(&route_record("ZZ", "BER"), &airports).is_none());
    assert!(endpoints(&record(&["0", "AL", "410", "BER", "2965"]), &airports).is_none());
    assert!(endpoints(&Vec::new(), &airports).is_none());
}

#[test]
fn invalid_routes_are_counted_one_by_one() {
    let airports = store();
    let routes = vec![
        route_record("KTM", "PKR"),
        route_record("KTM", "ZZ"),
        route_record("BER", "SVO"),
        record(&["short"]),
        route_record("ZZ", "YY"),
    ];
    let load = load_adjacency_list_from_csv(&routes, &airports);
    assert_eq!(load.invalid_routes, 3);
    assert_eq!(load.valid_routes, 2);
    let with_one_more = {
        let mut routes = routes.clone();
        routes.push(route_record("PKR", "ZZ"));
        load_adjacency_list_from_csv(&routes, &airports)
    };
    assert_eq!(with_one_more.invalid_routes, 4);
    assert_eq!(with_one_more.valid_routes, 2);
    assert_eq!(with_one_more.graph.keys(), load.graph.keys());
}
