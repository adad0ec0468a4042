use flight_delays::ranking::{average_is_below, worst_of};
use flight_delays::summary::DelayAccumulator;

fn entry(key: &str, count: usize, total: i128) -> DelayAccumulator {
    DelayAccumulator { key: key.to_string(), count, total, max: 0 }
}

#[test]
fn worst_of_three_with_a_tie() {
    let entries = vec![entry("A", 1, 3), entry("B", 1, 9), entry("C", 1, 9)];
    let worst = worst_of(&entries).expect("an entry");
    let average = entries[worst].total as f32 / entries[worst].count as f32;
    assert_eq!(average, 9.0);
    assert!(entries[worst].key == "B" || entries[worst].key == "C");
    assert_eq!(worst, 2);
}

#[test]
fn worst_of_nothing_is_nothing() {
    let entries: Vec<DelayAccumulator> = Vec::new();
    assert_eq!(worst_of(&entries), None);
}

#[test]
fn worst_of_one_is_that_one() {
    let entries = vec![entry("A", 4, -8)];
    assert_eq!(worst_of(&entries), Some(0));
}

#[test]
fn worst_is_by_average_not_by_total() {
    let entries = vec![entry("A", 10, 100), entry("B", 1, 11), entry("C", 100, 1000)];
    assert_eq!(worst_of(&entries), Some(1));
}

#[test]
fn worst_among_negative_averages() {
    let entries = vec![entry("A", 2, -9), entry("B", 3, -9), entry("C", 1, -5)];
    assert_eq!(worst_of(&entries), Some(1));
}

#[test]
fn equal_averages_of_different_counts_tie() {
    let entries = vec![entry("A", 3, 9), entry("B", 1, 2), entry("C", 2, 6), entry("D", 5, 1)];
    assert_eq!(worst_of(&entries), Some(2));
}

#[test]
fn averages_are_ordered_exactly() {
    let third = entry("A", 3, 1);
    let near = entry("B", 100, 33);
    assert!(average_is_below(&near, &third));
    assert!(!average_is_below(&third, &near));
    assert!(!average_is_below(&third, &third));
    let low = entry("C", 3, -1);
    assert!(average_is_below(&low, &near));
    assert!(!average_is_below(&near, &low));
}

#[test]
fn averages_of_extreme_totals_are_ordered() {
    let count = 1usize << 31;
    let high = entry("A", count, (i32::MAX as i128) * (count as i128));
    let low = entry("B", count, (i32::MIN as i128) * (count as i128));
    let nearly = entry("C", count, (i32::MAX as i128) * (count as i128) - 1);
    assert!(average_is_below(&low, &high));
    assert!(!average_is_below(&high, &low));
    assert!(average_is_below(&nearly, &high));
    assert!(!average_is_below(&high, &nearly));
    let entries = vec![nearly, high, low];
    assert_eq!(worst_of(&entries), Some(1));
}
