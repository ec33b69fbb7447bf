use algo_caster::storage::serializer::format_timestamp;
use algo_caster::storage::session_history::format_session_timestamp;
use algo_caster::text::node_label;
use std::collections::HashSet;

#[test]
fn labels_run_like_spreadsheet_columns() {
    assert_eq!(node_label(0), "A");
    assert_eq!(node_label(25), "Z");
    assert_eq!(node_label(26), "AA");
    assert_eq!(node_label(27), "AB");
    assert_eq!(node_label(51), "AZ");
    assert_eq!(node_label(52), "BA");
    assert_eq!(node_label(701), "ZZ");
    assert_eq!(node_label(702), "AAA");
}

#[test]
fn labels_are_distinct() {
    let labels: HashSet<String> = (0..2000).map(node_label).collect();
    assert_eq!(labels.len(), 2000);
}

#[test]
fn timestamp_of_the_epoch() {
    assert_eq!(format_timestamp(0), "1970-01-01T00:00:00Z");
    assert_eq!(format_session_timestamp(0), "1970-01-01T00:00:00Z");
}

#[test]
fn timestamp_fields() {
    // 400 days, 13:05:09 after the epoch.
    let secs = 400 * 86400 + 13 * 3600 + 5 * 60 + 9;
    assert_eq!(format_timestamp(secs), "1971-02-05T13:05:09Z");
}

#[test]
fn timestamp_stays_within_twelve_months() {
    assert_eq!(format_timestamp(360 * 86400), "1970-12-27T00:00:00Z");
    assert_eq!(format_timestamp(362 * 86400), "1970-12-29T00:00:00Z");
    assert_eq!(format_session_timestamp(362 * 86400), "1970-12-29T00:00:00Z");
    assert_eq!(format_timestamp(365 * 86400), "1971-01-01T00:00:00Z");
}

#[test]
fn timestamp_counts_leap_days() {
    assert_eq!(format_timestamp(951782400), "2000-02-29T00:00:00Z");
    assert_eq!(format_session_timestamp(1709164800), "2024-02-29T00:00:00Z");
    assert_eq!(format_timestamp(1709164800 + 86400), "2024-03-01T00:00:00Z");
}

#[test]
fn timestamp_of_the_largest_time() {
    assert_eq!(format_timestamp(u64::MAX), "584554051223-11-09T07:00:15Z");
}
