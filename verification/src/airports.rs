//! The coordinate store: airports by identifier, read from tabular records.

use crate::keys::{
    keyed, lemma_index_of_unique, lemma_keyed_dom, lemma_keyed_push, lemma_keyed_update, position,
};
use geoutils::Location;
use vstd::prelude::*;

verus! {

/// `geoutils::Location`, a point given by latitude and longitude in degrees.
/// Nothing inside it is visible to the verifier: values are only carried.
#[verifier::external_type_specification]
#[verifier::external_body]
pub struct ExLocation(Location);

/// Whether `str::parse` reads the text as a decimal number.
pub uninterp spec fn is_number(text: Seq<char>) -> bool;

/// The location that `geoutils::Location::new_const` gives for the numbers
/// that two texts are read as, latitude first.
pub uninterp spec fn location_at(latitude: Seq<char>, longitude: Seq<char>) -> Location;

/// The location written in two coordinate fields: there is one where both
/// fields are numbers, and none where one of them is not.
pub open spec fn parsed_location(latitude: Seq<char>, longitude: Seq<char>) -> Option<Location> {
    if is_number(latitude) && is_number(longitude) {
        Some(location_at(latitude, longitude))
    } else {
        None
    }
}

/// Reads each field as a decimal number with `str::parse` and hands the two
/// numbers to `geoutils::Location::new_const`. Trusted: there is a location
/// exactly when `str::parse` reads both fields as numbers, and which location
/// it is depends on the two texts alone.
#[verifier::external_body]
fn parse_location(latitude: &str, longitude: &str) -> (r: Option<Location>)
    ensures
        r.is_some() == (is_number(latitude@) && is_number(longitude@)),
        r.is_some() ==> r == Some(location_at(latitude@, longitude@)),
{
    match (latitude.parse(), longitude.parse()) {
        (Ok(lat), Ok(lon)) => Some(Location::new_const(lat, lon)),
        _ => None,
    }
}

/// An airport: where it lies.
#[derive(Debug, Clone, Copy)]
pub struct Airport {
    pub location: Location,
}

impl Airport {
    /// The airport at `location`.
    pub fn new(location: Location) -> (airport: Airport)
        ensures
            airport.location == location,
    {
        Airport { location }
    }

    /// The airport at the coordinates written in two text fields, if both are numbers.
    pub fn parse(latitude: &str, longitude: &str) -> (r: Option<Airport>)
        ensures
            r == Airport::parsed(latitude@, longitude@),
    {
        match parse_location(latitude, longitude) {
            Some(location) => Some(Airport { location }),
            None => None,
        }
    }

    /// What `parse` returns for two text fields: the airport at the location
    /// that they give where both are numbers, and nothing where one is not.
    pub open spec fn parsed(latitude: Seq<char>, longitude: Seq<char>) -> Option<Airport> {
        match parsed_location(latitude, longitude) {
            Some(location) => Some(Airport { location }),
            None => None,
        }
    }
}

/// Airports by identifier. A later `insert` under the same identifier replaces
/// the earlier airport.
#[derive(Debug)]
pub struct AirportTable {
    ids: Vec<String>,
    airports: Vec<Airport>,
}

impl View for AirportTable {
    type V = Map<Seq<char>, Airport>;

    closed spec fn view(&self) -> Map<Seq<char>, Airport> {
        keyed(self.ids.deep_view(), self.airports@)
    }
}

impl AirportTable {
    /// One airport per identifier.
    pub closed spec fn wf(&self) -> bool {
        &&& self.ids.len() == self.airports.len()
        &&& self.ids.deep_view().no_duplicates()
    }

    pub fn new() -> (table: AirportTable)
        ensures
            table.wf(),
            table@ == Map::<Seq<char>, Airport>::empty(),
    {
        let table = AirportTable { ids: Vec::new(), airports: Vec::new() };
        assert(table@ =~= Map::<Seq<char>, Airport>::empty());
        table
    }

    /// The number of airports.
    pub fn len(&self) -> (n: usize)
        requires
            self.wf(),
        ensures
            self@.dom().finite(),
            n == self@.dom().len(),
    {
        proof {
            lemma_keyed_dom(self.ids.deep_view(), self.airports@);
        }
        self.ids.len()
    }

    pub fn is_empty(&self) -> (b: bool)
        requires
            self.wf(),
        ensures
            self@.dom().finite(),
            b == (self@.dom().len() == 0),
    {
        proof {
            lemma_keyed_dom(self.ids.deep_view(), self.airports@);
        }
        self.ids.len() == 0
    }

    /// The identifiers of the airports, each once.
    pub fn keys(&self) -> (ids: &Vec<String>)
        requires
            self.wf(),
        ensures
            ids.deep_view().no_duplicates(),
            ids.deep_view().to_set() == self@.dom(),
    {
        proof {
            lemma_keyed_dom(self.ids.deep_view(), self.airports@);
        }
        &self.ids
    }

    pub fn contains_key(&self, id: &str) -> (b: bool)
        requires
            self.wf(),
        ensures
            b == self@.dom().contains(id@),
    {
        let key = id.to_owned();
        position(&self.ids, &key).is_some()
    }

    pub fn get(&self, id: &str) -> (r: Option<&Airport>)
        requires
            self.wf(),
        ensures
            match r {
                Some(airport) => self@.dom().contains(id@) && *airport == self@[id@],
                None => !self@.dom().contains(id@),
            },
    {
        let key = id.to_owned();
        match position(&self.ids, &key) {
            Some(i) => {
                proof {
                    lemma_index_of_unique(self.ids.deep_view(), i as int);
                }
                Some(&self.airports[i])
            },
            None => None,
        }
    }

    /// Binds `id` to `airport`, replacing what `id` was bound to.
    pub fn insert(&mut self, id: &str, airport: Airport)
        requires
            old(self).wf(),
        ensures
            final(self).wf(),
            final(self)@ == old(self)@.insert(id@, airport),
    {
        let key = id.to_owned();
        match position(&self.ids, &key) {
            Some(i) => {
                proof {
                    lemma_keyed_update(self.ids.deep_view(), self.airports@, i as int, airport);
                }
                self.airports[i] = airport;
            },
            None => {
                proof {
                    lemma_keyed_push(self.ids.deep_view(), self.airports@, key@, airport);
                }
                self.ids.push(key);
                self.airports.push(airport);
                assert(self.ids.deep_view() =~= old(self).ids.deep_view().push(id@));
            },
        }
    }
}

/// An airport record holds at least this many fields.
pub const AIRPORT_FIELDS: usize = 9;

/// The field of an airport record that holds the identifier.
pub const AIRPORT_ID_FIELD: usize = 5;

/// The field of an airport record that holds the latitude.
pub const LATITUDE_FIELD: usize = 7;

/// The field of an airport record that holds the longitude.
pub const LONGITUDE_FIELD: usize = 8;

/// Why an airport record was passed over.
#[derive(Debug, Clone, Copy, PartialEq, Eq)]
pub enum AirportIssue {
    /// The record has too few fields.
    InvalidFormat,
    /// Latitude or longitude is not a number.
    InvalidCoordinates,
}

/// What reading the airport records gave: the table, and the records passed
/// over, each by its index among the records and with the reason.
#[derive(Debug)]
pub struct AirportLoad {
    pub airports: AirportTable,
    pub skipped: Vec<(usize, AirportIssue)>,
}

/// The airport that a record describes, if the record is complete.
pub open spec fn airport_of(record: Seq<Seq<char>>) -> Option<Airport> {
    if record.len() >= AIRPORT_FIELDS {
        Airport::parsed(record[LATITUDE_FIELD as int], record[LONGITUDE_FIELD as int])
    } else {
        None
    }
}

/// What is wrong with a record, if anything: it has too few fields, or its
/// latitude or its longitude is not a number.
pub open spec fn airport_issue(record: Seq<Seq<char>>) -> Option<AirportIssue> {
    if record.len() < AIRPORT_FIELDS {
        Some(AirportIssue::InvalidFormat)
    } else if !is_number(record[LATITUDE_FIELD as int]) || !is_number(
        record[LONGITUDE_FIELD as int],
    ) {
        Some(AirportIssue::InvalidCoordinates)
    } else {
        None
    }
}

/// The table that the records give when read in order: each complete record
/// binds its identifier, over any earlier binding of the same identifier.
pub open spec fn airports_of(records: Seq<Seq<Seq<char>>>) -> Map<Seq<char>, Airport>
    decreases records.len(),
{
    if records.len() == 0 {
        Map::empty()
    } else {
        let earlier = airports_of(records.drop_last());
        match airport_of(records.last()) {
            Some(airport) => earlier.insert(records.last()[AIRPORT_ID_FIELD as int], airport),
            None => earlier,
        }
    }
}

/// The records that are passed over, in order, each with its index and reason.
pub open spec fn airport_issues(records: Seq<Seq<Seq<char>>>) -> Seq<(usize, AirportIssue)>
    decreases records.len(),
{
    if records.len() == 0 {
        Seq::empty()
    } else {
        let earlier = airport_issues(records.drop_last());
        match airport_issue(records.last()) {
            Some(issue) => earlier.push(((records.len() - 1) as usize, issue)),
            None => earlier,
        }
    }
}

/// Record `i` is complete and carries the identifier `id`.
pub open spec fn binds(records: Seq<Seq<Seq<char>>>, i: int, id: Seq<char>) -> bool {
    &&& 0 <= i < records.len()
    &&& airport_of(records[i]) is Some
    &&& records[i][AIRPORT_ID_FIELD as int] == id
}

/// The table binds the identifiers that complete records carry and no
/// others, each to the airport of the last complete record that carries it.
pub proof fn lemma_last_record_wins(records: Seq<Seq<Seq<char>>>, id: Seq<char>)
    ensures
        airports_of(records).dom().contains(id) <==> exists|i: int| binds(records, i, id),
        forall|i: int|
            binds(records, i, id) && (forall|j: int| i < j < records.len() ==> !binds(records, j, id))
                ==> airports_of(records)[id] == airport_of(records[i])->0,
    decreases records.len(),
{
    if records.len() > 0 {
        let shorter = records.drop_last();
        let last = records.len() - 1;
        lemma_last_record_wins(shorter, id);
        assert forall|i: int| binds(shorter, i, id) == (binds(records, i, id) && i < last) by {
            if 0 <= i < last {
                assert(shorter[i] == records[i]);
            }
        }
        if binds(records, last, id) {
        } else if airports_of(records).dom().contains(id) {
            let i = choose|i: int| binds(shorter, i, id);
            assert(binds(records, i, id));
        }
        assert forall|i: int|
            binds(records, i, id) && (forall|j: int|
                i < j < records.len() ==> !binds(records, j, id)) implies airports_of(records)[id]
            == airport_of(records[i])->0 by {
            if i < last {
                assert(!binds(records, last, id));
                assert(binds(shorter, i, id));
                assert forall|j: int| i < j < shorter.len() implies !binds(shorter, j, id) by {
                    assert(!binds(records, j, id));
                }
            }
        }
    }
}

/// Builds the coordinate store from airport records, each a list of fields.
/// A record with too few fields or with a coordinate that is not a number is
/// passed over and reported; the others are read in order.
pub fn load_airports_from_csv(records: &Vec<Vec<String>>) -> (r: AirportLoad)
    ensures
        r.airports.wf(),
        r.airports@ == airports_of(records.deep_view()),
        r.skipped@ == airport_issues(records.deep_view()),
{
    let mut airports = AirportTable::new();
    let mut skipped: Vec<(usize, AirportIssue)> = Vec::new();
    let mut i: usize = 0;
    while i < records.len()
        invariant
            i <= records.len(),
            airports.wf(),
            airports@ == airports_of(records.deep_view().take(i as int)),
            skipped@ == airport_issues(records.deep_view().take(i as int)),
        decreases records.len() - i,
    {
        let record = &records[i];
        proof {
            let all = records.deep_view();
            assert(all.take(i + 1).drop_last() =~= all.take(i as int));
            assert(all.take(i + 1).last() == record.deep_view());
        }
        if record.len() >= AIRPORT_FIELDS {
            match Airport::parse(record[LATITUDE_FIELD].as_str(), record[LONGITUDE_FIELD].as_str()) {
                Some(airport) => {
                    airports.insert(record[AIRPORT_ID_FIELD].as_str(), airport);
                },
                None => {
                    skipped.push((i, AirportIssue::InvalidCoordinates));
                },
            }
        } else {
            skipped.push((i, AirportIssue::InvalidFormat));
        }
        i += 1;
    }
    proof {
        assert(records.deep_view().take(i as int) =~= records.deep_view());
    }
    AirportLoad { airports, skipped }
}

} // verus!
