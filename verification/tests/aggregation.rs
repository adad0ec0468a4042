use flight_delays::record::FlightRecord;
use flight_delays::report::{carrier_delays, delays_by_airline, worst_airports, worst_entry};
use flight_delays::summary::{summarize, DelayAccumulator, GroupBy, Metric};

fn leg(
    carrier: &str,
    origin: &str,
    destination: &str,
    departure: Option<i32>,
    arrival: Option<i32>,
) -> FlightRecord {
    FlightRecord::new(
        carrier.to_string(),
        origin.to_string(),
        destination.to_string(),
        departure,
        arrival,
        false,
        100,
    )
}

fn average(a: &DelayAccumulator) -> f32 {
    a.total as f32 / a.count as f32
}

fn carrier_line(a: &DelayAccumulator) -> String {
    format!("{} Avg/Max delay: {:.2}/{}", a.key, average(a), a.max)
}

#[test]
fn carrier_group_with_a_missing_delay() {
    let records = vec![
        leg("AA", "NYC", "LAX", None, Some(5)),
        leg("AA", "NYC", "LAX", None, None),
        leg("AA", "NYC", "LAX", None, Some(15)),
    ];
    let summary = summarize(&records, GroupBy::Carrier, Metric::Arrival);
    assert_eq!(summary.len(), 1);
    assert_eq!(summary[0].key, "AA");
    assert_eq!(summary[0].count, 3);
    assert_eq!(summary[0].total, 20);
    assert_eq!(summary[0].max, 15);
    assert_eq!(format!("{:.2}", average(&summary[0])), "6.67");
}

#[test]
fn empty_input_gives_empty_summary() {
    let records: Vec<FlightRecord> = Vec::new();
    assert!(summarize(&records, GroupBy::Carrier, Metric::Arrival).is_empty());
    assert!(summarize(&records, GroupBy::Origin, Metric::Departure).is_empty());
    assert!(delays_by_airline(&records, "NYC", "LAX").is_empty());
}

#[test]
fn no_match_gives_no_carrier() {
    let records = vec![
        leg("AA", "NYC", "LAX", Some(1), Some(2)),
        leg("UA", "ORD", "LAX", Some(3), Some(4)),
        leg("DL", "NYC", "ORD", Some(5), Some(6)),
    ];
    let summary = delays_by_airline(&records, "LAX", "NYC");
    assert!(summary.is_empty());
    let lines: Vec<String> = summary.iter().map(carrier_line).collect();
    assert_eq!(lines.len(), 0);
}

#[test]
fn one_record_end_to_end() {
    let records = vec![leg("AA", "NYC", "LAX", Some(10), Some(20))];
    let summary = delays_by_airline(&records, "NYC", "LAX");
    assert_eq!(summary.len(), 1);
    assert_eq!(carrier_line(&summary[0]), "AA Avg/Max delay: 20.00/20");
}

#[test]
fn worst_departure_of_two_records_at_one_origin() {
    let records = vec![
        leg("AA", "ORD", "LAX", Some(10), Some(0)),
        leg("UA", "NYC", "LAX", Some(5), Some(0)),
        leg("AA", "ORD", "NYC", Some(30), Some(0)),
    ];
    let worst = worst_airports(&records);
    let departure = worst.departure.expect("a worst departure airport");
    assert_eq!(departure.key, "ORD");
    assert_eq!(departure.count, 2);
    assert_eq!(departure.total, 40);
    assert_eq!(
        format!("Worst average departure delay: {} ({:.2})", departure.key, average(&departure)),
        "Worst average departure delay: ORD (20.00)"
    );
}

#[test]
fn arrival_report_is_keyed_by_origin() {
    let records = vec![
        leg("AA", "ORD", "LAX", Some(1), Some(50)),
        leg("UA", "NYC", "LAX", Some(2), Some(10)),
        leg("DL", "NYC", "ORD", Some(90), Some(20)),
    ];
    let worst = worst_airports(&records);
    let arrival = worst.arrival.expect("a worst arrival airport");
    assert_eq!(arrival.key, "ORD");
    assert_eq!(arrival.count, 1);
    assert_eq!(arrival.total, 50);
    let departure = worst.departure.expect("a worst departure airport");
    assert_eq!(departure.key, "NYC");
    assert_eq!(departure.count, 2);
    assert_eq!(departure.total, 92);
}

#[test]
fn no_record_no_worst_airport() {
    let records: Vec<FlightRecord> = Vec::new();
    let worst = worst_airports(&records);
    assert!(worst.departure.is_none());
    assert!(worst.arrival.is_none());
}

#[test]
fn aggregation_is_repeatable() {
    let records = vec![
        leg("AA", "NYC", "LAX", Some(1), Some(7)),
        leg("UA", "NYC", "LAX", Some(3), None),
        leg("AA", "nyc", "lax", None, Some(-4)),
        leg("DL", "ORD", "LAX", Some(5), Some(6)),
    ];
    let first = delays_by_airline(&records, "nyc", "Lax");
    let second = delays_by_airline(&records, "nyc", "Lax");
    assert_eq!(first.len(), second.len());
    for (a, b) in first.iter().zip(second.iter()) {
        assert_eq!(a.key, b.key);
        assert_eq!(a.count, b.count);
        assert_eq!(a.total, b.total);
        assert_eq!(a.max, b.max);
    }
    assert_eq!(first.len(), 2);
    assert_eq!(first[0].key, "AA");
    assert_eq!(first[0].count, 2);
    assert_eq!(first[0].total, 3);
    assert_eq!(first[0].max, 7);
    assert_eq!(first[1].key, "UA");
    assert_eq!(first[1].count, 1);
    assert_eq!(first[1].total, 0);
    assert_eq!(first[1].max, 0);
}

#[test]
fn groups_come_in_first_seen_order() {
    let records = vec![
        leg("UA", "B", "X", Some(1), None),
        leg("AA", "A", "X", Some(2), None),
        leg("UA", "C", "X", Some(3), None),
        leg("DL", "A", "X", Some(4), None),
        leg("AA", "B", "X", Some(5), None),
    ];
    let by_carrier = summarize(&records, GroupBy::Carrier, Metric::Departure);
    let carriers: Vec<&str> = by_carrier.iter().map(|a| a.key.as_str()).collect();
    assert_eq!(carriers, vec!["UA", "AA", "DL"]);
    let totals: Vec<i128> = by_carrier.iter().map(|a| a.total).collect();
    assert_eq!(totals, vec![4, 7, 4]);
    let by_origin = summarize(&records, GroupBy::Origin, Metric::Departure);
    let origins: Vec<&str> = by_origin.iter().map(|a| a.key.as_str()).collect();
    assert_eq!(origins, vec!["B", "A", "C"]);
    let counts: Vec<usize> = by_origin.iter().map(|a| a.count).collect();
    assert_eq!(counts, vec![2, 2, 1]);
}

#[test]
fn maximum_of_early_flights_is_negative() {
    let records = vec![
        leg("AA", "NYC", "LAX", None, Some(-5)),
        leg("AA", "NYC", "LAX", None, Some(-20)),
    ];
    let summary = summarize(&records, GroupBy::Carrier, Metric::Arrival);
    assert_eq!(summary.len(), 1);
    assert_eq!(summary[0].count, 2);
    assert_eq!(summary[0].total, -25);
    assert_eq!(summary[0].max, -5);
    assert_eq!(format!("{:.2}", average(&summary[0])), "-12.50");
}

#[test]
fn carrier_line_of_early_flights() {
    let records = vec![
        leg("AA", "NYC", "LAX", None, Some(-5)),
        leg("AA", "NYC", "LAX", None, Some(-3)),
    ];
    let summary = delays_by_airline(&records, "NYC", "LAX");
    assert_eq!(summary.len(), 1);
    assert_eq!(summary[0].max, -3);
    assert_eq!(carrier_line(&summary[0]), "AA Avg/Max delay: -4.00/-3");
}

#[test]
fn missing_delay_counts_as_zero_in_the_maximum() {
    let records = vec![
        leg("AA", "NYC", "LAX", None, Some(-5)),
        leg("AA", "NYC", "LAX", None, None),
        leg("AA", "NYC", "LAX", None, Some(-3)),
    ];
    let summary = summarize(&records, GroupBy::Carrier, Metric::Arrival);
    assert_eq!(summary[0].count, 3);
    assert_eq!(summary[0].total, -8);
    assert_eq!(summary[0].max, 0);
}

#[test]
fn maximum_is_taken_within_each_group() {
    let records = vec![
        leg("AA", "NYC", "LAX", None, Some(-7)),
        leg("UA", "NYC", "LAX", None, Some(40)),
        leg("AA", "NYC", "LAX", None, Some(-9)),
        leg("UA", "NYC", "LAX", None, Some(12)),
    ];
    let summary = delays_by_airline(&records, "NYC", "LAX");
    assert_eq!(summary.len(), 2);
    assert_eq!(summary[0].key, "AA");
    assert_eq!(summary[0].max, -7);
    assert_eq!(summary[1].key, "UA");
    assert_eq!(summary[1].max, 40);
}

#[test]
fn extreme_delays_do_not_overflow() {
    let records = vec![
        leg("AA", "NYC", "LAX", Some(i32::MIN), Some(i32::MAX)),
        leg("AA", "NYC", "LAX", Some(i32::MIN), Some(i32::MAX)),
        leg("AA", "NYC", "LAX", Some(i32::MIN), Some(i32::MAX)),
    ];
    let arrival = summarize(&records, GroupBy::Carrier, Metric::Arrival);
    assert_eq!(arrival[0].total, 3 * (i32::MAX as i128));
    assert_eq!(arrival[0].max, i32::MAX);
    let departure = summarize(&records, GroupBy::Carrier, Metric::Departure);
    assert_eq!(departure[0].total, 3 * (i32::MIN as i128));
    assert_eq!(departure[0].max, i32::MIN);
    let worst = worst_airports(&records);
    assert_eq!(worst.departure.expect("one airport").total, 3 * (i32::MIN as i128));
}

#[test]
fn carrier_delays_expects_upper_case_names() {
    let records = vec![
        leg("AA", "nyc", "Lax", None, Some(9)),
        leg("UA", "NYC", "LAX", None, Some(4)),
    ];
    let upper = carrier_delays(&records, "NYC", "LAX");
    assert_eq!(upper.len(), 2);
    assert_eq!(upper[0].key, "AA");
    assert_eq!(upper[1].key, "UA");
    let lower = carrier_delays(&records, "nyc", "lax");
    assert!(lower.is_empty());
    let normalized = delays_by_airline(&records, "nyc", "lax");
    assert_eq!(normalized.len(), 2);
}

#[test]
fn worst_entry_copies_the_selected_accumulator() {
    let records = vec![
        leg("AA", "A", "X", Some(3), None),
        leg("AA", "B", "X", Some(12), None),
        leg("AA", "B", "X", Some(6), None),
    ];
    let summary = summarize(&records, GroupBy::Origin, Metric::Departure);
    let worst = worst_entry(&summary).expect("a worst entry");
    assert_eq!(worst.key, "B");
    assert_eq!(worst.count, 2);
    assert_eq!(worst.total, 18);
    assert_eq!(worst.max, 12);
    let none: Vec<DelayAccumulator> = Vec::new();
    assert!(worst_entry(&none).is_none());
}

#[test]
fn groups_do_not_depend_on_the_order_of_the_records() {
    let forward = vec![
        leg("AA", "NYC", "LAX", Some(4), Some(-5)),
        leg("UA", "NYC", "LAX", Some(8), Some(30)),
        leg("AA", "NYC", "LAX", Some(-2), Some(-3)),
        leg("UA", "NYC", "LAX", None, None),
    ];
    let backward: Vec<FlightRecord> = forward.iter().rev().map(|r| r.clone()).collect();
    let one = summarize(&forward, GroupBy::Carrier, Metric::Arrival);
    let other = summarize(&backward, GroupBy::Carrier, Metric::Arrival);
    assert_eq!(one.len(), 2);
    assert_eq!(other.len(), 2);
    assert_eq!(one[0].key, "AA");
    assert_eq!(other[1].key, "AA");
    assert_eq!((one[0].count, one[0].total, one[0].max), (2, -8, -3));
    assert_eq!((other[1].count, other[1].total, other[1].max), (2, -8, -3));
    assert_eq!(one[1].key, "UA");
    assert_eq!(other[0].key, "UA");
    assert_eq!((one[1].count, one[1].total, one[1].max), (2, 30, 30));
    assert_eq!((other[0].count, other[0].total, other[0].max), (2, 30, 30));
}
