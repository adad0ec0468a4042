use flight_delays::command::Command;
use flight_delays::record::FlightRecord;
use flight_delays::route::{is_valid_flight, normalize, route_matches};
use flight_delays::summary::DelayAccumulator;

fn nyc_to_lax() -> FlightRecord {
    FlightRecord::new(
        "AA".to_string(),
        "New York, NY".to_string(),
        "Los Angeles, CA".to_string(),
        Some(10),
        None,
        true,
        2475,
    )
}

#[test]
fn record_getters_return_the_fields() {
    let record = nyc_to_lax();
    assert_eq!(record.carrier(), "AA");
    assert_eq!(record.origin(), "New York, NY");
    assert_eq!(record.destination(), "Los Angeles, CA");
    assert_eq!(record.departure_delay(), Some(10));
    assert_eq!(record.arrival_delay(), None);
    assert!(record.cancelled());
    assert_eq!(record.distance(), 2475);
}

#[test]
fn record_clone_keeps_the_fields() {
    let copy = nyc_to_lax().clone();
    assert_eq!(copy.carrier(), "AA");
    assert_eq!(copy.origin(), "New York, NY");
    assert_eq!(copy.destination(), "Los Angeles, CA");
    assert_eq!(copy.departure_delay(), Some(10));
    assert_eq!(copy.arrival_delay(), None);
    assert!(copy.cancelled());
    assert_eq!(copy.distance(), 2475);
}

#[test]
fn command_getters_return_the_arguments() {
    let command = Command::new("flights.csv".to_string(), "nyc".to_string(), "Lax".to_string());
    assert_eq!(command.path(), "flights.csv");
    assert_eq!(command.origin(), "nyc");
    assert_eq!(command.destination(), "Lax");
}

#[test]
fn route_filter_ignores_the_case_of_the_record() {
    let record = nyc_to_lax();
    assert!(is_valid_flight(&record, "NEW YORK, NY", "LOS ANGELES, CA"));
}

#[test]
fn route_filter_expects_upper_case_names() {
    let record = nyc_to_lax();
    assert!(!is_valid_flight(&record, "New York, NY", "Los Angeles, CA"));
    assert!(!is_valid_flight(&record, "new york, ny", "los angeles, ca"));
}

#[test]
fn route_filter_needs_both_names() {
    let record = nyc_to_lax();
    assert!(!is_valid_flight(&record, "NEW YORK, NY", "CHICAGO, IL"));
    assert!(!is_valid_flight(&record, "CHICAGO, IL", "LOS ANGELES, CA"));
    assert!(!is_valid_flight(&record, "LOS ANGELES, CA", "NEW YORK, NY"));
}

#[test]
fn route_filter_takes_empty_names() {
    let record = FlightRecord::new(
        "AA".to_string(),
        String::new(),
        String::new(),
        None,
        None,
        false,
        0,
    );
    assert!(is_valid_flight(&record, "", ""));
    assert!(!is_valid_flight(&record, "NYC", ""));
}

#[test]
fn normalize_gives_upper_case() {
    assert_eq!(normalize("nyc"), "NYC");
    assert_eq!(normalize("New York, NY"), "NEW YORK, NY");
    assert_eq!(normalize("LAX"), "LAX");
    assert_eq!(normalize(""), "");
    assert_eq!(normalize("stra\u{df}e"), "STRASSE");
}

#[test]
fn route_matches_compares_both_pairs() {
    assert!(route_matches("NYC", "LAX", "NYC", "LAX"));
    assert!(!route_matches("NYC", "LAX", "NYC", "ORD"));
    assert!(!route_matches("NYC", "LAX", "ORD", "LAX"));
    assert!(!route_matches("NYC", "LAX", "nyc", "lax"));
    assert!(!route_matches("NYC", "LAX", "LAX", "NYC"));
}

#[test]
fn accumulator_starts_empty_and_folds_delays() {
    let mut accumulator = DelayAccumulator::empty("AA".to_string());
    assert_eq!(accumulator.key, "AA");
    assert_eq!(accumulator.count, 0);
    assert_eq!(accumulator.total, 0);
    assert_eq!(accumulator.max, 0);
    accumulator.observe(Some(-6));
    assert_eq!(accumulator.count, 1);
    assert_eq!(accumulator.total, -6);
    assert_eq!(accumulator.max, -6);
    accumulator.observe(Some(11));
    accumulator.observe(None);
    accumulator.observe(Some(15));
    accumulator.observe(Some(-8));
    assert_eq!(accumulator.count, 5);
    assert_eq!(accumulator.total, 12);
    assert_eq!(accumulator.max, 15);
    let copy = accumulator.clone();
    assert_eq!(copy.key, "AA");
    assert_eq!(copy.count, 5);
    assert_eq!(copy.total, 12);
    assert_eq!(copy.max, 15);
}
