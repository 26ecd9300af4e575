//! Tests for the comparison pipeline, coverage, and range merging.

use kashshaf_reuse::compare::{
    calculate_coverage, compare_books_from_streams, count_lemma_frequencies, merge_ranges,
};
use kashshaf_reuse::models::{BookLemmaStream, ComparisonParams, PageLemmas, ReuseEdge};

fn create_test_stream(book_id: u32, lemmas: Vec<u32>) -> BookLemmaStream {
    let total_tokens = lemmas.len();
    BookLemmaStream {
        book_id,
        total_tokens,
        pages: vec![PageLemmas {
            part_index: 1,
            page_id: 1,
            lemma_ids: lemmas,
        }],
    }
}

#[test]
fn test_compare_identical_streams() {
    let lemmas: Vec<u32> = (0..100).collect();
    let stream_a = create_test_stream(1, lemmas.clone());
    let stream_b = create_test_stream(2, lemmas);

    let params = ComparisonParams {
        window_size: 50,
        stride: 25,
        min_length: 10,
        min_similarity: 500,
        ..Default::default()
    };

    let result = compare_books_from_streams(&stream_a, &stream_b, &params).unwrap();

    assert!(!result.edges.is_empty());
    assert!(result.summary.avg_similarity > 900);
}

#[test]
fn test_compare_no_match() {
    let stream_a = create_test_stream(1, (0..100).collect());
    let stream_b = create_test_stream(2, (1000..1100).collect());

    let params = ComparisonParams {
        window_size: 50,
        stride: 25,
        min_length: 10,
        min_similarity: 500,
        ..Default::default()
    };

    let result = compare_books_from_streams(&stream_a, &stream_b, &params).unwrap();

    assert!(result.edges.is_empty());
}

#[test]
fn test_coverage_calculation() {
    let edges = vec![
        ReuseEdge {
            id: 1,
            source_book_id: 1,
            source_global_start: 0,
            source_global_end: 50,
            target_book_id: 2,
            target_global_start: 0,
            target_global_end: 50,
            ..Default::default()
        },
        ReuseEdge {
            id: 2,
            source_book_id: 1,
            source_global_start: 25,
            source_global_end: 75,
            target_book_id: 2,
            target_global_start: 25,
            target_global_end: 75,
            ..Default::default()
        },
    ];

    // Total book size is 100, edges cover 0-75: 750 per-mille.
    let coverage = calculate_coverage(&edges, 1, 100);
    assert_eq!(coverage, 750);
}

#[test]
fn test_merge_ranges() {
    let ranges = vec![(0, 50), (25, 75), (100, 150)];
    let merged = merge_ranges(&ranges);

    assert_eq!(merged.len(), 2);
    assert_eq!(merged[0], (0, 75));
    assert_eq!(merged[1], (100, 150));
}

#[test]
fn test_merge_ranges_empty() {
    let ranges: Vec<(usize, usize)> = vec![];
    let merged = merge_ranges(&ranges);
    assert!(merged.is_empty());
}

#[test]
fn test_merge_ranges_single() {
    let ranges = vec![(0, 50)];
    let merged = merge_ranges(&ranges);
    assert_eq!(merged.len(), 1);
    assert_eq!(merged[0], (0, 50));
}

#[test]
fn test_identical_streams_edge_at_origin() {
    // Identical streams produce an edge whose source and target both
    // start at position 0, with a core similarity of exactly 1.
    let lemmas: Vec<u32> = (0..200).collect();
    let stream_a = create_test_stream(1, lemmas.clone());
    let stream_b = create_test_stream(2, lemmas);

    let params = ComparisonParams {
        window_size: 50,
        stride: 25,
        min_length: 10,
        min_similarity: 500,
        ..Default::default()
    };

    let result = compare_books_from_streams(&stream_a, &stream_b, &params).unwrap();
    assert!(!result.edges.is_empty());
    let first = &result.edges[0];
    assert_eq!(first.source_global_start, 0);
    assert_eq!(first.target_global_start, 0);
    assert_eq!(first.core_similarity, 1000);
}

#[test]
fn test_empty_stream_yields_no_edges() {
    // An empty stream on either side yields the empty edge list
    // without an error.
    let empty = BookLemmaStream {
        book_id: 1,
        total_tokens: 0,
        pages: vec![],
    };
    let full = create_test_stream(2, (0..100).collect());
    let params = ComparisonParams {
        window_size: 50,
        stride: 25,
        ..Default::default()
    };

    let r1 = compare_books_from_streams(&empty, &full, &params).unwrap();
    assert!(r1.edges.is_empty());
    let r2 = compare_books_from_streams(&full, &empty, &params).unwrap();
    assert!(r2.edges.is_empty());
}

#[test]
fn test_identical_runs_identical_edges() {
    // Two runs on the same inputs give the same edge set, ids included.
    let lemmas: Vec<u32> = (0..150).map(|i| i % 40).collect();
    let stream_a = create_test_stream(1, lemmas.clone());
    let stream_b = create_test_stream(2, lemmas);

    let params = ComparisonParams {
        window_size: 50,
        stride: 25,
        min_length: 10,
        min_similarity: 500,
        ..Default::default()
    };

    let r1 = compare_books_from_streams(&stream_a, &stream_b, &params).unwrap();
    let r2 = compare_books_from_streams(&stream_a, &stream_b, &params).unwrap();
    assert_eq!(r1.edges.len(), r2.edges.len());
    for (a, b) in r1.edges.iter().zip(r2.edges.iter()) {
        assert_eq!(a.id, b.id);
        assert_eq!(a.source_global_start, b.source_global_start);
        assert_eq!(a.source_global_end, b.source_global_end);
        assert_eq!(a.target_global_start, b.target_global_start);
        assert_eq!(a.target_global_end, b.target_global_end);
        assert_eq!(a.lemma_matches, b.lemma_matches);
        assert_eq!(a.core_similarity, b.core_similarity);
    }
}

#[test]
fn test_count_lemma_frequencies_values() {
    let lemmas: Vec<u32> = vec![0, 1, 1, 2, 2, 2, 5];
    let counts = count_lemma_frequencies(&lemmas, 5);
    assert_eq!(counts, vec![1, 2, 3, 0, 0, 1]);
}

#[test]
fn test_metric_filters_drop_edges() {
    // A core-similarity threshold drops edges below it.
    let lemmas_a: Vec<u32> = (0..100).collect();
    let lemmas_b: Vec<u32> = (0..100).map(|i| if i % 7 == 0 { i + 5000 } else { i }).collect();
    let stream_a = create_test_stream(1, lemmas_a);
    let stream_b = create_test_stream(2, lemmas_b);

    let open_params = ComparisonParams {
        window_size: 50,
        stride: 25,
        min_length: 10,
        min_similarity: 400,
        ..Default::default()
    };
    let strict_params = ComparisonParams {
        min_core_similarity: Some(990),
        ..open_params
    };

    let open = compare_books_from_streams(&stream_a, &stream_b, &open_params).unwrap();
    let strict = compare_books_from_streams(&stream_a, &stream_b, &strict_params).unwrap();
    assert!(!open.edges.is_empty());
    assert!(strict.edges.len() < open.edges.len() || open.edges.iter().all(|e| e.core_similarity >= 990));
}
