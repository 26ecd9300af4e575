//! Tests for edge merging and subsumption.

use kashshaf_reuse::merge::{
    calculate_overlap_size, merge_adjacent_edges, merge_overlapping_edges, ranges_overlap,
    remove_subsumed_edges,
};
use kashshaf_reuse::models::ReuseEdge;

fn create_edge(
    id: u64,
    source_start: usize,
    source_end: usize,
    target_start: usize,
    target_end: usize,
) -> ReuseEdge {
    let aligned_length = (source_end - source_start) as u32;
    ReuseEdge {
        id,
        source_book_id: 1,
        source_start_page: (1, 1),
        source_start_offset: 0,
        source_end_page: (1, 1),
        source_end_offset: 0,
        source_global_start: source_start,
        source_global_end: source_end,
        target_book_id: 2,
        target_start_page: (1, 1),
        target_start_offset: 0,
        target_end_page: (1, 1),
        target_end_offset: 0,
        target_global_start: target_start,
        target_global_end: target_end,
        aligned_length,
        lemma_matches: aligned_length,
        substitutions: 0,
        root_only_matches: 0,
        gaps: 0,
        core_similarity: 1000,
        span_coverage: 1000,
        content_weight: 1000,
        lemma_similarity: 1000,
        combined_similarity: 1000,
        weighted_similarity: 1000,
        avg_match_weight: 1000,
    }
}

#[test]
fn test_no_merge_needed() {
    let edges = vec![
        create_edge(1, 0, 100, 0, 100),
        create_edge(2, 200, 300, 200, 300),
    ];

    let merged = merge_overlapping_edges(edges);
    assert_eq!(merged.len(), 2);
}

#[test]
fn merge_test_merge_overlapping() {
    let edges = vec![
        create_edge(1, 0, 100, 0, 100),
        create_edge(2, 50, 150, 50, 150),
    ];

    let merged = merge_overlapping_edges(edges);
    assert_eq!(merged.len(), 1);
    assert_eq!(merged[0].source_global_start, 0);
    assert_eq!(merged[0].source_global_end, 150);
}

#[test]
fn test_merge_multiple_overlapping() {
    let edges = vec![
        create_edge(1, 0, 100, 0, 100),
        create_edge(2, 50, 150, 50, 150),
        create_edge(3, 100, 200, 100, 200),
    ];

    let merged = merge_overlapping_edges(edges);
    assert_eq!(merged.len(), 1);
    assert_eq!(merged[0].source_global_start, 0);
    assert_eq!(merged[0].source_global_end, 200);
}

#[test]
fn test_no_merge_when_only_source_overlaps() {
    let edges = vec![
        create_edge(1, 0, 100, 0, 100),
        create_edge(2, 50, 150, 200, 300),
    ];

    let merged = merge_overlapping_edges(edges);
    assert_eq!(merged.len(), 2);
}

#[test]
fn test_ranges_overlap() {
    assert!(ranges_overlap(0, 100, 50, 150));
    assert!(ranges_overlap(50, 150, 0, 100));
    assert!(!ranges_overlap(0, 100, 100, 200));
    assert!(!ranges_overlap(0, 100, 200, 300));
}

#[test]
fn test_empty_edges() {
    let edges: Vec<ReuseEdge> = vec![];
    let merged = merge_overlapping_edges(edges);
    assert!(merged.is_empty());
}

#[test]
fn test_single_edge() {
    let edges = vec![create_edge(1, 0, 100, 0, 100)];
    let merged = merge_overlapping_edges(edges);
    assert_eq!(merged.len(), 1);
}

#[test]
fn test_merge_adjacent() {
    let edges = vec![
        create_edge(1, 0, 100, 0, 100),
        create_edge(2, 105, 200, 105, 200),
    ];

    let merged = merge_adjacent_edges(edges, 10);
    assert_eq!(merged.len(), 1);
}

#[test]
fn test_no_merge_adjacent_too_far() {
    let edges = vec![
        create_edge(1, 0, 100, 0, 100),
        create_edge(2, 150, 250, 150, 250),
    ];

    let merged = merge_adjacent_edges(edges, 10);
    assert_eq!(merged.len(), 2);
}

#[test]
fn test_remove_subsumed() {
    let edges = vec![
        create_edge(1, 0, 200, 0, 200),
        create_edge(2, 50, 150, 50, 150),
    ];

    let retained = remove_subsumed_edges(edges);
    assert_eq!(retained.len(), 1);
    assert_eq!(retained[0].id, 1);
}

#[test]
fn test_overlap_size_values() {
    assert_eq!(calculate_overlap_size(0, 100, 50, 150), 50);
    assert_eq!(calculate_overlap_size(0, 100, 100, 200), 0);
    assert_eq!(calculate_overlap_size(0, 100, 20, 30), 10);
}

#[test]
fn test_merge_count_estimation() {
    // Merging two fully-matching edges over a 50-token overlap: the
    // overlap's matches are subtracted once at the left edge's rate.
    let edges = vec![
        create_edge(1, 0, 100, 0, 100),
        create_edge(2, 50, 150, 50, 150),
    ];
    let merged = merge_overlapping_edges(edges);
    assert_eq!(merged.len(), 1);
    // 100 + 100 - 50 * 1000 / 1000 = 150 matches over 150 tokens.
    assert_eq!(merged[0].lemma_matches, 150);
    assert_eq!(merged[0].aligned_length, 150);
    assert_eq!(merged[0].core_similarity, 1000);
    assert_eq!(merged[0].lemma_similarity, 1000);
}

#[test]
fn test_merge_count_estimation_rounds() {
    // Overlap 1 at a left similarity of 600 per-mille: the estimate
    // round(1 * 0.6) = 1 is subtracted, not the truncation 0.
    let mut a = create_edge(1, 0, 10, 0, 10);
    a.lemma_matches = 3;
    a.lemma_similarity = 600;
    let mut b = create_edge(2, 9, 19, 9, 19);
    b.lemma_matches = 4;
    let merged = merge_overlapping_edges(vec![a, b]);
    assert_eq!(merged.len(), 1);
    assert_eq!(merged[0].lemma_matches, 6);
}

#[test]
fn test_merge_idempotent_on_output() {
    // Running the overlap merge on its own output changes nothing.
    let edges = vec![
        create_edge(1, 0, 100, 0, 100),
        create_edge(2, 50, 150, 50, 150),
        create_edge(3, 300, 400, 300, 400),
    ];
    let once = merge_overlapping_edges(edges);
    let twice = merge_overlapping_edges(once.clone());
    assert_eq!(once.len(), twice.len());
    for (a, b) in once.iter().zip(twice.iter()) {
        assert_eq!(a.source_global_start, b.source_global_start);
        assert_eq!(a.source_global_end, b.source_global_end);
        assert_eq!(a.target_global_start, b.target_global_start);
        assert_eq!(a.target_global_end, b.target_global_end);
        assert_eq!(a.lemma_matches, b.lemma_matches);
    }
}

#[test]
fn test_subsumption_antisymmetric() {
    // No two retained edges of the same book pair contain each other.
    let edges = vec![
        create_edge(1, 0, 200, 0, 200),
        create_edge(2, 50, 150, 50, 150),
        create_edge(3, 0, 200, 0, 200),
        create_edge(4, 300, 350, 300, 350),
    ];
    let retained = remove_subsumed_edges(edges);
    for i in 0..retained.len() {
        for j in 0..retained.len() {
            if i != j {
                let a = &retained[i];
                let b = &retained[j];
                let a_in_b = b.source_global_start <= a.source_global_start
                    && b.source_global_end >= a.source_global_end
                    && b.target_global_start <= a.target_global_start
                    && b.target_global_end >= a.target_global_end;
                let b_in_a = a.source_global_start <= b.source_global_start
                    && a.source_global_end >= b.source_global_end
                    && a.target_global_start <= b.target_global_start
                    && a.target_global_end >= b.target_global_end;
                assert!(!(a_in_b && b_in_a));
            }
        }
    }
}
