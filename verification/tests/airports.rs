use airgraph::airports::{load_airports_from_csv, Airport, AirportIssue, AirportTable};

fn record(fields: &[&str]) -> Vec<String> {
    fields.iter().map(|f| f.to_string()).collect()
}

fn airport_record(id: &str, latitude: &str, longitude: &str) -> Vec<String> {
    record(&["1", "Name", "City", "Country", "x", id, "ICAO", latitude, longitude])
}

#[test]
fn parse_accepts_decimal_degrees() {
    let airport = Airport::parse("52.518611", "13.408056").expect("both fields are numbers");
    assert_eq!(airport.location.latitude(), 52.518611);
    assert_eq!(airport.location.longitude(), 13.408056);
}

#[test]
fn parse_keeps_latitude_and_longitude_apart() {
    let airport = Airport::parse("-6.125556", "106.655833").expect("both fields are numbers");
    assert_eq!(airport.location.latitude(), -6.125556);
    assert_eq!(airport.location.longitude(), 106.655833);
}

#[test]
fn parse_rejects_text() {
    assert!(Airport::parse("north", "13.4").is_none());
    assert!(Airport::parse("52.5", "").is_none());
    assert!(Airport::parse("52.5", "13,4").is_none());
}

#[test]
fn new_keeps_the_location() {
    let location = geoutils::Location::new(27.740068, 85.337576);
    let airport = Airport::new(location);
    assert_eq!(airport.location, location);
}

#[test]
fn empty_input_gives_empty_table() {
    let load = load_airports_from_csv(&Vec::new());
    assert_eq!(load.airports.len(), 0);
    assert!(load.airports.is_empty());
    assert!(load.skipped.is_empty());
}

#[test]
fn load_skips_short_and_unparsable_records() {
    let records = vec![
        airport_record("TXL", "52.5597", "13.2877"),
        record(&["2", "short"]),
        airport_record("NWH", "abc", "13.0"),
        record(&["4", "Name", "City", "Country", "x", "EIG", "ICAO", "1.0"]),
        airport_record("SXF", "52.38", "13.5225"),
    ];
    let load = load_airports_from_csv(&records);
    assert_eq!(load.airports.len(), 2);
    assert!(load.airports.contains_key("TXL"));
    assert!(load.airports.contains_key("SXF"));
    assert!(!load.airports.contains_key("NWH"));
    assert!(!load.airports.contains_key("EIG"));
    assert_eq!(
        load.skipped,
        vec![
            (1, AirportIssue::InvalidFormat),
            (2, AirportIssue::InvalidCoordinates),
            (3, AirportIssue::InvalidFormat),
        ]
    );
}

#[test]
fn later_record_replaces_earlier_one() {
    let records = vec![
        airport_record("TXL", "1.5", "2.5"),
        airport_record("SXF", "3.5", "4.5"),
        airport_record("TXL", "52.5597", "13.2877"),
    ];
    let load = load_airports_from_csv(&records);
    assert_eq!(load.airports.len(), 2);
    let airport = load.airports.get("TXL").expect("TXL was read");
    assert_eq!(airport.location.latitude(), 52.5597);
    assert_eq!(airport.location.longitude(), 13.2877);
    let other = load.airports.get("SXF").expect("SXF was read");
    assert_eq!(other.location.latitude(), 3.5);
}

#[test]
fn unparsable_later_record_leaves_earlier_one() {
    let records = vec![airport_record("TXL", "1.5", "2.5"), airport_record("TXL", "x", "2.5")];
    let load = load_airports_from_csv(&records);
    let airport = load.airports.get("TXL").expect("TXL was read");
    assert_eq!(airport.location.latitude(), 1.5);
    assert_eq!(load.skipped, vec![(1, AirportIssue::InvalidCoordinates)]);
}

#[test]
fn table_insert_and_get() {
    let mut table = AirportTable::new();
    assert!(table.get("A").is_none());
    table.insert("A", Airport::parse("1.0", "2.0").expect("numbers"));
    table.insert("B", Airport::parse("3.0", "4.0").expect("numbers"));
    table.insert("A", Airport::parse("5.0", "6.0").expect("numbers"));
    assert_eq!(table.len(), 2);
    assert!(!table.is_empty());
    assert_eq!(table.get("A").expect("A is bound").location.latitude(), 5.0);
    assert_eq!(table.get("B").expect("B is bound").location.longitude(), 4.0);
    assert!(!table.contains_key("C"));
}

#[test]
fn one_bad_coordinate_gives_no_airport() {
    assert!(Airport::parse("52.5", "east").is_none());
    assert!(Airport::parse("north", "13.4").is_none());
    assert!(Airport::parse("", "").is_none());
    assert!(Airport::parse("52.5", "13.4").is_some());
    let records = vec![
        airport_record("LAT", "x", "13.4"),
        airport_record("LON", "52.5", "y"),
        airport_record("OK", "52.5", "13.4"),
    ];
    let load = load_airports_from_csv(&records);
    assert_eq!(
        load.skipped,
        vec![(0, AirportIssue::InvalidCoordinates), (1, AirportIssue::InvalidCoordinates)]
    );
    assert_eq!(load.airports.len(), 1);
    assert!(load.airports.contains_key("OK"));
}
