use pscan::matcher::{find, find_first};
use pscan::output::{AnnotatedLine, OutputEntry};
use pscan::scanner::{scan_lines, ScanConfig, Scanner};

fn config(before: usize, after: usize) -> ScanConfig {
    ScanConfig {
        context_before: before,
        context_after: after,
        case_sensitive: true,
        trim_lines: false,
    }
}

fn lines_of(texts: &[&str]) -> Vec<String> {
    texts.iter().map(|t| t.to_string()).collect()
}

fn expect_line(entry: &OutputEntry) -> &AnnotatedLine {
    match entry {
        OutputEntry::Line(l) => l,
        OutputEntry::Gap => panic!("expected a line entry, found a gap marker"),
    }
}

fn is_gap(entry: &OutputEntry) -> bool {
    matches!(entry, OutputEntry::Gap)
}

#[test]
fn scenario_one_match_with_context_on_both_sides() {
    let lines = lines_of(&["foo", "bar MATCH baz", "qux"]);
    let result = scan_lines(&lines, "MATCH", &config(1, 1));
    assert_eq!(result.match_count, 1);
    assert_eq!(result.entries.len(), 3);
    let first = expect_line(&result.entries[0]);
    assert_eq!(first.line_number, 1);
    assert_eq!(first.text, "foo");
    assert_eq!(first.match_span, None);
    let second = expect_line(&result.entries[1]);
    assert_eq!(second.line_number, 2);
    assert_eq!(second.text, "bar MATCH baz");
    assert_eq!(second.match_span, Some((4, 9)));
    let third = expect_line(&result.entries[2]);
    assert_eq!(third.line_number, 3);
    assert_eq!(third.text, "qux");
    assert_eq!(third.match_span, None);
}

#[test]
fn scenario_match_without_context() {
    let lines = lines_of(&["a", "b", "c", "MATCH", "d"]);
    let result = scan_lines(&lines, "MATCH", &config(0, 0));
    assert_eq!(result.match_count, 1);
    assert_eq!(result.entries.len(), 1);
    let only = expect_line(&result.entries[0]);
    assert_eq!(only.line_number, 4);
    assert_eq!(only.text, "MATCH");
    assert_eq!(only.match_span, Some((0, 5)));
}

#[test]
fn scenario_two_matches_with_gap_marker() {
    let lines = lines_of(&[
        "line one",
        "a MATCH here",
        "line three",
        "line four",
        "line five",
        "line six",
        "line seven",
        "line eight",
        "line nine",
        "a MATCH there",
        "line eleven",
        "line twelve",
    ]);
    let result = scan_lines(&lines, "MATCH", &config(1, 1));
    assert_eq!(result.match_count, 2);
    assert_eq!(result.entries.len(), 7);
    assert_eq!(expect_line(&result.entries[0]).line_number, 1);
    assert_eq!(expect_line(&result.entries[1]).line_number, 2);
    assert!(expect_line(&result.entries[1]).match_span.is_some());
    assert_eq!(expect_line(&result.entries[2]).line_number, 3);
    assert!(is_gap(&result.entries[3]));
    assert_eq!(expect_line(&result.entries[4]).line_number, 9);
    assert_eq!(expect_line(&result.entries[4]).match_span, None);
    let second_match = expect_line(&result.entries[5]);
    assert_eq!(second_match.line_number, 10);
    assert!(second_match.match_span.is_some());
    assert_eq!(expect_line(&result.entries[6]).line_number, 11);
}

#[test]
fn case_folding_finds_a_match_only_when_insensitive() {
    assert_eq!(find("Hello World", "hello", false), Some((0, 5)));
    assert_eq!(find("Hello World", "hello", true), None);
}

#[test]
fn only_the_first_occurrence_is_reported() {
    assert_eq!(find("abc abc abc", "abc", true), Some((0, 3)));
    assert_eq!(find("xxabcxxabc", "abc", true), Some((2, 5)));
}

#[test]
fn find_reports_exact_byte_offsets() {
    assert_eq!(find("bar MATCH baz", "MATCH", true), Some((4, 9)));
    assert_eq!(find("bar match baz", "MATCH", true), None);
    assert_eq!(find_first(b"abcdef", b"cde"), Some(2));
    assert_eq!(find_first(b"abcdef", b"xyz"), None);
    assert_eq!(find_first(b"abcdef", b""), Some(0));
}

#[test]
fn no_match_yields_empty_output_and_zero_count() {
    let lines = lines_of(&["nothing", "to", "see"]);
    let result = scan_lines(&lines, "MATCH", &config(2, 2));
    assert_eq!(result.match_count, 0);
    assert!(result.entries.is_empty());
}

#[test]
fn after_context_is_exhausted_after_its_count() {
    let lines = lines_of(&["MATCH", "one", "two", "three", "four"]);
    let result = scan_lines(&lines, "MATCH", &config(0, 2));
    assert_eq!(result.match_count, 1);
    assert_eq!(result.entries.len(), 3);
    assert_eq!(expect_line(&result.entries[0]).line_number, 1);
    assert_eq!(expect_line(&result.entries[1]).line_number, 2);
    assert_eq!(expect_line(&result.entries[1]).match_span, None);
    assert_eq!(expect_line(&result.entries[2]).line_number, 3);
}

#[test]
fn evicted_lines_never_reappear() {
    let lines = lines_of(&["old one", "old two", "recent", "a MATCH"]);
    let result = scan_lines(&lines, "MATCH", &config(1, 0));
    assert_eq!(result.match_count, 1);
    assert_eq!(result.entries.len(), 2);
    let context = expect_line(&result.entries[0]);
    assert_eq!(context.line_number, 3);
    assert_eq!(context.text, "recent");
    let matched = expect_line(&result.entries[1]);
    assert_eq!(matched.line_number, 4);
    for entry in &result.entries {
        if let OutputEntry::Line(l) = entry {
            assert_ne!(l.text, "old one");
            assert_ne!(l.text, "old two");
        }
    }
}

#[test]
fn before_context_is_limited_to_available_lines() {
    let lines = lines_of(&["only", "a MATCH"]);
    let result = scan_lines(&lines, "MATCH", &config(5, 0));
    assert_eq!(result.entries.len(), 2);
    assert_eq!(expect_line(&result.entries[0]).line_number, 1);
    assert_eq!(expect_line(&result.entries[1]).line_number, 2);
}

#[test]
fn trimmed_lines_are_matched_and_reported_trimmed() {
    let lines = lines_of(&["   MATCH   "]);
    let cfg = ScanConfig {
        context_before: 0,
        context_after: 0,
        case_sensitive: true,
        trim_lines: true,
    };
    let result = scan_lines(&lines, "MATCH", &cfg);
    assert_eq!(result.match_count, 1);
    let only = expect_line(&result.entries[0]);
    assert_eq!(only.text, "MATCH");
    assert_eq!(only.match_span, Some((0, 5)));
}

#[test]
fn scanner_streams_lines_one_at_a_time() {
    let mut scanner = Scanner::new("needle".to_string(), config(1, 1));
    scanner.push_line("hay".to_string());
    scanner.push_line("a needle here".to_string());
    scanner.push_line("more hay".to_string());
    scanner.push_line("nothing".to_string());
    assert_eq!(scanner.match_count(), 1);
    let result = scanner.into_result();
    assert_eq!(result.match_count, 1);
    assert_eq!(result.entries.len(), 3);
    assert_eq!(expect_line(&result.entries[1]).match_span, Some((2, 8)));
}

#[test]
fn consecutive_matches_have_no_gap_marker() {
    let lines = lines_of(&["MATCH a", "MATCH b", "MATCH c"]);
    let result = scan_lines(&lines, "MATCH", &config(2, 2));
    assert_eq!(result.match_count, 3);
    assert_eq!(result.entries.len(), 3);
    for (idx, entry) in result.entries.iter().enumerate() {
        let line = expect_line(entry);
        assert_eq!(line.line_number, idx + 1);
        assert!(line.match_span.is_some());
    }
}

#[test]
fn empty_query_matches_every_line_at_offset_zero() {
    let lines = lines_of(&["alpha", "beta"]);
    let result = scan_lines(&lines, "", &config(0, 0));
    assert_eq!(result.match_count, 2);
    assert_eq!(expect_line(&result.entries[0]).match_span, Some((0, 0)));
}
