//! The route filter: which records belong to a requested origin and
//! destination, whatever the case of their letters.

use vstd::prelude::*;
use crate::record::{FlightRecord, FlightRecordView};
use crate::text::{same_text, to_upper, uppercase};

verus! {

/// Whether a record flies the route: its origin and its destination, in
/// upper case, are the two given texts.
pub open spec fn matches_route(r: FlightRecordView, origin: Seq<char>, destination: Seq<char>) -> bool {
    uppercase(r.origin) == origin && uppercase(r.destination) == destination
}

/// The records of `records` that fly the route, in their order.
pub open spec fn on_route(
    records: Seq<FlightRecordView>,
    origin: Seq<char>,
    destination: Seq<char>,
) -> Seq<FlightRecordView> {
    records.filter(|r: FlightRecordView| matches_route(r, origin, destination))
}

/// The canonical form of a requested airport name: upper case.
pub fn normalize(name: &str) -> (r: String)
    ensures
        r@ == uppercase(name@),
{
    to_upper(name)
}

/// Decides the route filter once both names of a record are in upper case.
pub fn route_matches(
    upper_origin: &str,
    upper_destination: &str,
    origin: &str,
    destination: &str,
) -> (b: bool)
    ensures
        b == (upper_origin@ == origin@ && upper_destination@ == destination@),
{
    same_text(upper_origin, origin) && same_text(upper_destination, destination)
}

/// The route filter. `origin` and `destination` are expected in upper case;
/// the record's own names are brought to upper case here.
pub fn is_valid_flight(record: &FlightRecord, origin: &str, destination: &str) -> (b: bool)
    ensures
        b == matches_route(record@, origin@, destination@),
{
    let upper_origin = to_upper(record.origin());
    let upper_destination = to_upper(record.destination());
    route_matches(upper_origin.as_str(), upper_destination.as_str(), origin, destination)
}

} // verus!
