//! Tests for textual output: locations, edge summaries, CSV, and the
//! timestamp.

use kashshaf_reuse::compare::format_timestamp;
use kashshaf_reuse::models::ReuseEdge;
use kashshaf_reuse::models::{AlignmentInfo, PassageRef, PassageText, ReuseEdgeWithText};
use kashshaf_reuse::output::{
    format_edge, format_page_location, truncate_text, u64_to_string, write_csv,
    write_csv_with_text,
};

fn create_test_edge() -> ReuseEdge {
    ReuseEdge {
        id: 1,
        source_book_id: 100,
        source_start_page: (1, 10),
        source_start_offset: 5,
        source_end_page: (1, 15),
        source_end_offset: 20,
        source_global_start: 500,
        source_global_end: 600,
        target_book_id: 200,
        target_start_page: (2, 5),
        target_start_offset: 10,
        target_end_page: (2, 10),
        target_end_offset: 30,
        target_global_start: 1000,
        target_global_end: 1100,
        aligned_length: 100,
        lemma_matches: 85,
        substitutions: 5,
        root_only_matches: 10,
        gaps: 5,
        core_similarity: 944,
        span_coverage: 900,
        content_weight: 1500,
        lemma_similarity: 850,
        combined_similarity: 900,
        weighted_similarity: 850,
        avg_match_weight: 1500,
    }
}

#[test]
fn test_format_page_location() {
    assert_eq!(format_page_location(1, 10, 5), "1:10.5");
    assert_eq!(format_page_location(0, 0, 0), "0:0.0");
}

#[test]
fn test_format_edge() {
    let edge = create_test_edge();
    let formatted = format_edge(&edge);

    assert!(formatted.contains("Edge 1"));
    assert!(formatted.contains("Book 100"));
    assert!(formatted.contains("Book 200"));
    assert!(formatted.contains("len=100"));
    assert!(formatted.contains("matches=85"));
    assert!(formatted.contains("subs=5"));
    assert!(formatted.contains("Core: 94.4%"));
    assert!(formatted.contains("Coverage: 90.0%"));
    assert!(formatted.contains("Weight: 1.50"));
}

#[test]
fn test_write_csv() {
    let edges = vec![create_test_edge()];

    let csv = write_csv(&edges);
    assert!(csv.contains("id,source_book_id"));
    assert!(csv.contains("1,100,1,10"));
}

#[test]
fn test_write_csv_empty() {
    let edges: Vec<ReuseEdge> = vec![];

    let csv = write_csv(&edges);
    assert!(csv.contains("id,source_book_id"));
    assert_eq!(csv.lines().count(), 1);
}

#[test]
fn test_u64_to_string_digits() {
    assert_eq!(u64_to_string(0), "0");
    assert_eq!(u64_to_string(7), "7");
    assert_eq!(u64_to_string(10), "10");
    assert_eq!(u64_to_string(90210), "90210");
}

#[test]
fn test_truncate_text_short_and_long() {
    assert_eq!(truncate_text("short", 100), "short");
    let long: String = "x".repeat(120);
    let cut = truncate_text(&long, 100);
    assert_eq!(cut.chars().count(), 100);
    assert!(cut.ends_with("..."));
}

#[test]
fn test_format_timestamp_epoch() {
    assert_eq!(format_timestamp(0), "1970-01-01T00:00:00Z");
    // One day, one hour, one minute and one second later.
    assert_eq!(format_timestamp(86400 + 3661), "1970-01-02T01:01:01Z");
    // A leap-year date: 2000-02-29 is day 59 of 2000.
    assert_eq!(format_timestamp(951782400), "2000-02-29T00:00:00Z");
}

#[test]
fn test_write_csv_with_text_quoting() {
    let side = |book_id: u32, text: &str| PassageRef {
        book_id,
        location: "1:1.0 \u{2192} 1:2.5".to_string(),
        global_range: (0, 4),
        text: PassageText {
            before: String::new(),
            matched: text.to_string(),
            after: String::new(),
        },
    };
    let edge = ReuseEdgeWithText {
        id: 7,
        source: side(100, "alpha \"beta\" gamma"),
        target: side(200, "delta"),
        alignment: AlignmentInfo {
            length: 4,
            lemma_matches: 4,
            substitutions: 0,
            root_only_matches: 0,
            gaps: 0,
            core_similarity: 1000,
            span_coverage: 1000,
            content_weight: 1000,
            similarity: 1000,
            combined_similarity: 1000,
            weighted_similarity: 1000,
            avg_match_weight: 1000,
        },
    };
    let csv = write_csv_with_text(&vec![edge]);
    assert!(csv.starts_with("id,source_book_id,source_location"));
    assert!(csv.contains("source_text_before,source_text_matched,source_text_after"));
    // The embedded quotes are doubled inside a quoted field.
    assert!(csv.contains("\"alpha \"\"beta\"\" gamma\""));
    assert!(csv.contains("7,100,"));
    assert_eq!(csv.lines().count(), 2);
}
