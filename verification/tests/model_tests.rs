//! Tests of the data model: age formatting, the default configuration, and
//! report building.

use fossil::models::Config;
use fossil::models::DebtMarker;
use fossil::models::DebtReport;
use fossil::models::GitBlameInfo;

fn count_of(counts: &Vec<(String, usize)>, key: &str) -> Option<usize> {
    for (k, c) in counts {
        if k == key {
            return Some(*c);
        }
    }
    None
}

#[test]
fn test_age_display() {
    let info = GitBlameInfo {
        author: "Test".to_string(),
        author_email: "test@example.com".to_string(),
        commit_hash: "abc123".to_string(),
        commit_time: 1_700_000_000,
        age_days: 15,
    };
    assert_eq!(info.age_display(), "15d");

    let info2 = GitBlameInfo { age_days: 60, ..info.clone() };
    assert_eq!(info2.age_display(), "2m");

    let info3 = GitBlameInfo { age_days: 400, ..info };
    assert_eq!(info3.age_display(), "1y");
}

#[test]
fn test_age_display_boundaries() {
    let base = GitBlameInfo {
        author: "Test".to_string(),
        author_email: "test@example.com".to_string(),
        commit_hash: "abc123".to_string(),
        commit_time: 0,
        age_days: 0,
    };
    assert_eq!(GitBlameInfo { age_days: 0, ..base.clone() }.age_display(), "0d");
    assert_eq!(GitBlameInfo { age_days: 29, ..base.clone() }.age_display(), "29d");
    assert_eq!(GitBlameInfo { age_days: 30, ..base.clone() }.age_display(), "1m");
    assert_eq!(GitBlameInfo { age_days: 364, ..base.clone() }.age_display(), "12m");
    assert_eq!(GitBlameInfo { age_days: 365, ..base.clone() }.age_display(), "1y");
    assert_eq!(GitBlameInfo { age_days: 730, ..base }.age_display(), "2y");
}

#[test]
fn test_default_config() {
    let config = Config::default();
    assert!(config.markers.contains(&"TODO".to_string()));
    assert!(config.markers.contains(&"FIXME".to_string()));
    assert_eq!(config.context_lines, 2);
    assert!(config.ignored_dirs.contains(&".git".to_string()));
}

#[test]
fn test_debt_report_creation() {
    let markers = vec![
        DebtMarker {
            marker_type: "TODO".to_string(),
            file_path: "test.rs".to_string(),
            line_number: 1,
            line_content: "// TODO: test".to_string(),
            context_before: vec![],
            context_after: vec![],
            git_info: None,
        },
        DebtMarker {
            marker_type: "TODO".to_string(),
            file_path: "test.rs".to_string(),
            line_number: 2,
            line_content: "// TODO: test2".to_string(),
            context_before: vec![],
            context_after: vec![],
            git_info: None,
        },
    ];

    let report = DebtReport::new(markers, ".".to_string());
    assert_eq!(report.total_count, 2);
    assert_eq!(count_of(&report.by_type, "TODO").unwrap(), 2);
    assert_eq!(count_of(&report.by_file, "test.rs").unwrap(), 2);
}

fn aged_marker(marker_type: &str, author: &str, age_days: i64) -> DebtMarker {
    DebtMarker {
        marker_type: marker_type.to_string(),
        file_path: "test.rs".to_string(),
        line_number: 1,
        line_content: format!("// {}: test", marker_type),
        context_before: vec![],
        context_after: vec![],
        git_info: Some(GitBlameInfo {
            author: author.to_string(),
            author_email: format!("{}@example.com", author),
            commit_hash: "abc1234".to_string(),
            commit_time: 1_700_000_000,
            age_days,
        }),
    }
}

#[test]
fn test_report_author_counts() {
    let markers = vec![
        aged_marker("TODO", "Alice", 5),
        aged_marker("FIXME", "Alice", 7),
        aged_marker("TODO", "Bob", 9),
        DebtMarker {
            git_info: None,
            ..aged_marker("HACK", "ignored", 1)
        },
    ];
    let report = DebtReport::new(markers, ".".to_string());
    assert_eq!(report.total_count, 4);
    assert_eq!(count_of(&report.by_author, "Alice").unwrap(), 2);
    assert_eq!(count_of(&report.by_author, "Bob").unwrap(), 1);
    assert_eq!(count_of(&report.by_author, "ignored"), None);
    assert_eq!(count_of(&report.by_type, "TODO").unwrap(), 2);
    assert_eq!(count_of(&report.by_type, "NOTE"), None);
}

#[test]
fn test_oldest_markers() {
    let mut third = aged_marker("TODO", "Carol", 50);
    third.line_number = 3;
    let markers = vec![
        aged_marker("TODO", "Alice", 5),
        aged_marker("FIXME", "Bob", 100),
        third,
        DebtMarker {
            git_info: None,
            ..aged_marker("HACK", "ignored", 1)
        },
    ];
    let report = DebtReport::new(markers, ".".to_string());
    let oldest = report.oldest_markers(2);
    assert_eq!(oldest.len(), 2);
    assert_eq!(oldest[0].git_info.as_ref().unwrap().age_days, 100);
    assert_eq!(oldest[1].git_info.as_ref().unwrap().age_days, 50);
    let all = report.oldest_markers(10);
    assert_eq!(all.len(), 3);
    assert_eq!(all[2].git_info.as_ref().unwrap().age_days, 5);
}
