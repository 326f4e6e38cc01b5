//! Tests of duration parsing and the marker filters.

use fossil::filters::filter_by_age;
use fossil::filters::filter_by_author;
use fossil::filters::filter_by_type;
use fossil::filters::parse_duration;
use fossil::filters::DurationError;
use fossil::models::DebtMarker;
use fossil::models::GitBlameInfo;

fn create_test_marker(marker_type: &str, age_days: i64, author: &str) -> DebtMarker {
    DebtMarker {
        marker_type: marker_type.to_string(),
        file_path: "test.rs".to_string(),
        line_number: 1,
        line_content: format!("// {}: test", marker_type),
        context_before: vec![],
        context_after: vec![],
        git_info: Some(GitBlameInfo {
            author: author.to_string(),
            author_email: format!("{}@example.com", author.to_lowercase()),
            commit_hash: "abc123".to_string(),
            commit_time: 1_700_000_000,
            age_days,
        }),
    }
}

#[test]
fn test_parse_duration() {
    assert_eq!(parse_duration("1d").unwrap(), 86400);
    assert_eq!(parse_duration("2w").unwrap(), 14 * 86400);
    assert_eq!(parse_duration("3m").unwrap(), 90 * 86400);
    assert_eq!(parse_duration("1y").unwrap(), 365 * 86400);

    assert!(parse_duration("").is_err());
    assert!(parse_duration("invalid").is_err());
    assert!(parse_duration("10x").is_err());
}

#[test]
fn test_parse_duration_errors() {
    assert_eq!(parse_duration("").unwrap_err(), DurationError::Empty);
    assert_eq!(parse_duration("10x").unwrap_err(), DurationError::InvalidUnit);
    assert_eq!(parse_duration("xd").unwrap_err(), DurationError::InvalidNumber);
    assert_eq!(parse_duration("   ").unwrap_err(), DurationError::InvalidNumber);
    assert_eq!(
        parse_duration("99999999999999999999d").unwrap_err(),
        DurationError::InvalidNumber
    );
    assert_eq!(
        parse_duration("999999999999999y").unwrap_err(),
        DurationError::Overflow
    );
    assert_eq!(parse_duration(" 2w ").unwrap(), 14 * 86400);
    assert_eq!(parse_duration("+5d").unwrap(), 5 * 86400);
}

#[test]
fn test_filter_by_age() {
    let markers = vec![
        create_test_marker("TODO", 10, "Alice"),
        create_test_marker("TODO", 50, "Bob"),
        create_test_marker("TODO", 100, "Charlie"),
    ];

    let filtered = filter_by_age(markers, "30d").unwrap();
    assert_eq!(filtered.len(), 2);

    let filtered2 = filter_by_age(
        vec![
            create_test_marker("TODO", 10, "Alice"),
            create_test_marker("TODO", 50, "Bob"),
        ],
        "60d",
    )
    .unwrap();
    assert_eq!(filtered2.len(), 0);
}

#[test]
fn test_filter_by_author() {
    let markers = vec![
        create_test_marker("TODO", 10, "Alice"),
        create_test_marker("TODO", 20, "Bob"),
        create_test_marker("TODO", 30, "Charlie"),
    ];

    let filtered = filter_by_author(markers, "alice");
    assert_eq!(filtered.len(), 1);
    assert_eq!(filtered[0].git_info.as_ref().unwrap().author, "Alice");

    let markers2 = vec![
        create_test_marker("TODO", 10, "Alice"),
        create_test_marker("TODO", 20, "Bob"),
    ];

    let filtered2 = filter_by_author(markers2, "ob");
    assert_eq!(filtered2.len(), 1);
    assert_eq!(filtered2[0].git_info.as_ref().unwrap().author, "Bob");
}

#[test]
fn test_filter_by_type() {
    let markers = vec![
        create_test_marker("TODO", 10, "Alice"),
        create_test_marker("FIXME", 20, "Bob"),
        create_test_marker("TODO", 30, "Charlie"),
    ];

    let filtered = filter_by_type(markers, "todo");
    assert_eq!(filtered.len(), 2);

    let markers2 = vec![
        create_test_marker("TODO", 10, "Alice"),
        create_test_marker("FIXME", 20, "Bob"),
    ];

    let filtered2 = filter_by_type(markers2, "FIXME");
    assert_eq!(filtered2.len(), 1);
    assert_eq!(filtered2[0].marker_type, "FIXME");
}

#[test]
fn test_filter_without_git_info() {
    let mut marker = create_test_marker("TODO", 100, "Alice");
    marker.git_info = None;

    let markers = vec![marker];
    let filtered = filter_by_age(markers.clone(), "30d").unwrap();
    assert_eq!(filtered.len(), 0);

    let filtered2 = filter_by_author(markers, "alice");
    assert_eq!(filtered2.len(), 0);
}

#[test]
fn test_filter_by_author_unicode_lowercase() {
    // The lower-casing is Unicode-aware: KELVIN SIGN lowers to a plain k.
    let markers = vec![create_test_marker("TODO", 10, "Fran\u{212A}\u{212A}lin")];
    let filtered = filter_by_author(markers, "frankklin");
    assert_eq!(filtered.len(), 1);
}
