//! Tests of the pattern compiler and the file scanner.

use fossil::pattern::build_marker_regex;
use fossil::pattern::PatternError;
use fossil::scanner::is_likely_binary;
use fossil::scanner::scan_content;

fn vocab(words: &[&str]) -> Vec<String> {
    let mut v = Vec::new();
    for w in words {
        v.push(w.to_string());
    }
    v
}

#[test]
fn test_build_marker_regex() {
    let markers = vocab(&["TODO", "FIXME"]);
    let regex = build_marker_regex(&markers).unwrap();

    assert!(regex.is_match("// TODO: fix this"));
    assert!(regex.is_match("# FIXME: broken"));
    assert!(regex.is_match("/* TODO something */"));
    assert!(regex.is_match("  * FIXME: stuff"));
    assert!(!regex.is_match("This is a TODO in prose"));
}

#[test]
fn test_build_marker_regex_errors() {
    let empty: Vec<String> = Vec::new();
    assert_eq!(
        build_marker_regex(&empty).unwrap_err(),
        PatternError::EmptyVocabulary
    );
    let with_empty = vocab(&["TODO", ""]);
    assert_eq!(
        build_marker_regex(&with_empty).unwrap_err(),
        PatternError::EmptyToken
    );
}

#[test]
fn test_word_boundary() {
    let pattern = build_marker_regex(&vocab(&["TODO"])).unwrap();
    assert!(!pattern.is_match("// TODOX: not a marker"));
    assert!(pattern.is_match("// TODO"));
    assert!(pattern.is_match("<!-- TODO: html -->"));
    assert!(!pattern.is_match("TODO without a comment prefix"));
}

#[test]
fn test_find_match_text() {
    let pattern = build_marker_regex(&vocab(&["TODO"])).unwrap();
    let (token, text) = pattern.find_match("/* TODO something */").unwrap();
    assert_eq!(token, "TODO");
    assert_eq!(text, "something ");
    let (token2, text2) = pattern.find_match("<!-- TODO: html -->").unwrap();
    assert_eq!(token2, "TODO");
    assert_eq!(text2, "html ");
}

#[test]
fn test_scan_file_with_markers() {
    let content = "\nfn main() {\n    // TODO: implement this\n    println!(\"Hello\");\n    // FIXME: broken logic\n}\n";

    let markers = vocab(&["TODO", "FIXME"]);
    let pattern = build_marker_regex(&markers).unwrap();
    let found = scan_content("test.rs", content.as_bytes(), &pattern, 1);

    assert_eq!(found.len(), 2);
    assert_eq!(found[0].marker_type, "TODO");
    assert_eq!(found[0].line_number, 3);
    assert_eq!(found[1].marker_type, "FIXME");
    assert_eq!(found[1].line_number, 5);
}

#[test]
fn test_context_extraction() {
    let content = "line 1\nline 2\n// TODO: fix\nline 4\nline 5";

    let markers = vocab(&["TODO"]);
    let pattern = build_marker_regex(&markers).unwrap();
    let found = scan_content("test.rs", content.as_bytes(), &pattern, 2);

    assert_eq!(found.len(), 1);
    assert_eq!(found[0].marker_type, "TODO");
    assert_eq!(found[0].line_number, 3);
    assert_eq!(found[0].context_before.len(), 2);
    assert_eq!(found[0].context_after.len(), 2);
    assert_eq!(found[0].context_before[0], "line 1");
    assert_eq!(found[0].context_before[1], "line 2");
    assert_eq!(found[0].context_after[0], "line 4");
    assert_eq!(found[0].context_after[1], "line 5");
}

#[test]
fn test_adjacent_markers_do_not_share_context() {
    let content = "// TODO: first\nmiddle\n// TODO: second\ntail\n";
    let pattern = build_marker_regex(&vocab(&["TODO"])).unwrap();
    let found = scan_content("test.rs", content.as_bytes(), &pattern, 2);

    assert_eq!(found.len(), 2);
    // The first marker's after-window is truncated where the second match
    // begins; the shared line belongs to the first marker only.
    assert_eq!(found[0].context_before.len(), 0);
    assert_eq!(found[0].context_after, vec!["middle".to_string()]);
    assert_eq!(found[1].context_before.len(), 0);
    assert_eq!(found[1].context_after, vec!["tail".to_string()]);
}

#[test]
fn test_zero_window() {
    let content = "a\n// TODO: x\nb\n";
    let pattern = build_marker_regex(&vocab(&["TODO"])).unwrap();
    let found = scan_content("test.rs", content.as_bytes(), &pattern, 0);
    assert_eq!(found.len(), 1);
    assert!(found[0].context_before.is_empty());
    assert!(found[0].context_after.is_empty());
}

#[test]
fn test_scan_is_deterministic() {
    let content = "x\r\n// TODO: care\ny\n".as_bytes();
    let pattern = build_marker_regex(&vocab(&["TODO", "FIXME"])).unwrap();
    let first = scan_content("a/b.rs", content, &pattern, 2);
    let second = scan_content("a/b.rs", content, &pattern, 2);
    assert_eq!(format!("{:?}", first), format!("{:?}", second));
    assert_eq!(first.len(), 1);
    assert_eq!(first[0].context_before, vec!["x".to_string()]);
}

#[test]
fn test_non_utf8_lines_are_skipped_but_numbered() {
    let mut content: Vec<u8> = Vec::new();
    content.extend_from_slice(b"ok\n");
    content.extend_from_slice(&[0xFF, 0xFE, 0x0A]);
    content.extend_from_slice(b"// TODO: after binary\n");
    let pattern = build_marker_regex(&vocab(&["TODO"])).unwrap();
    let found = scan_content("test.bin.rs", &content, &pattern, 2);
    assert_eq!(found.len(), 1);
    assert_eq!(found[0].line_number, 3);
    // The undecodable line is not context either.
    assert_eq!(found[0].context_before, vec!["ok".to_string()]);
}

#[test]
fn test_empty_file() {
    let pattern = build_marker_regex(&vocab(&["TODO"])).unwrap();
    let found = scan_content("empty.rs", b"", &pattern, 2);
    assert!(found.is_empty());
}

#[test]
fn test_is_likely_binary() {
    assert!(is_likely_binary("image.png"));
    assert!(is_likely_binary("document.pdf"));
    assert!(!is_likely_binary("code.rs"));
    assert!(!is_likely_binary("script.py"));
}

#[test]
fn test_is_likely_binary_case_and_paths() {
    assert!(is_likely_binary("IMAGE.PNG"));
    assert!(is_likely_binary("dir/archive.TAR"));
    assert!(!is_likely_binary("noextension"));
    assert!(!is_likely_binary(".gitignore"));
}

#[test]
fn test_window_at_file_boundaries() {
    let content = "// TODO: first line\nonly\n";
    let pattern = build_marker_regex(&vocab(&["TODO"])).unwrap();
    let found = scan_content("test.rs", content.as_bytes(), &pattern, 3);
    assert_eq!(found.len(), 1);
    assert!(found[0].context_before.is_empty());
    assert_eq!(found[0].context_after, vec!["only".to_string()]);

    let content2 = "a\nb\n// TODO: last line";
    let found2 = scan_content("test.rs", content2.as_bytes(), &pattern, 3);
    assert_eq!(found2.len(), 1);
    assert_eq!(
        found2[0].context_before,
        vec!["a".to_string(), "b".to_string()]
    );
    assert!(found2[0].context_after.is_empty());
}

#[test]
fn test_carriage_returns_stripped() {
    let content = b"before\r\n// TODO: windows line endings\r\nafter\r\r\n";
    let pattern = build_marker_regex(&vocab(&["TODO"])).unwrap();
    let found = scan_content("test.rs", content, &pattern, 1);
    assert_eq!(found.len(), 1);
    assert_eq!(found[0].line_content, "// TODO: windows line endings");
    assert_eq!(found[0].context_before, vec!["before".to_string()]);
    assert_eq!(found[0].context_after, vec!["after".to_string()]);
}
