//! Tests for the Smith-Waterman aligner.

use kashshaf_reuse::align::{
    align_lemma_sequences, align_lemma_sequences_banded, align_sequences, count_root_matches,
    quick_similarity_check,
};
use kashshaf_reuse::models::{ComparisonParams, MatchMode};

fn default_params() -> ComparisonParams {
    ComparisonParams {
        min_length: 10,
        min_similarity: 400,
        match_score: 2,
        mismatch_penalty: -1,
        gap_penalty: -1,
        ..Default::default()
    }
}

#[test]
fn test_identical_sequences() {
    let seq: Vec<u32> = (0..20).collect();
    let params = default_params();

    let result = align_lemma_sequences(&seq, &seq, &params);
    assert!(result.is_some());

    let alignment = result.unwrap();
    assert_eq!(alignment.lemma_matches as usize, seq.len());
    assert_eq!(alignment.gaps, 0);
    assert_eq!(alignment.aligned_pairs.len(), seq.len());
}

#[test]
fn test_partial_match() {
    let seq_a: Vec<u32> = (0..20).collect();
    let seq_b: Vec<u32> = (0..20)
        .map(|i| if i >= 5 && i < 15 { i } else { i + 1000 })
        .collect();
    let params = default_params();

    let result = align_lemma_sequences(&seq_a, &seq_b, &params);
    assert!(result.is_some());

    let alignment = result.unwrap();
    assert!(alignment.lemma_matches >= 10);
}

#[test]
fn test_no_match() {
    let seq_a: Vec<u32> = (0..15).collect();
    let seq_b: Vec<u32> = (100..115).collect();
    let params = default_params();

    let result = align_lemma_sequences(&seq_a, &seq_b, &params);
    assert!(result.is_none());
}

#[test]
fn test_empty_sequences() {
    let params = default_params();

    assert!(align_lemma_sequences(&[], &[1, 2, 3], &params).is_none());
    assert!(align_lemma_sequences(&[1, 2, 3], &[], &params).is_none());
    assert!(align_lemma_sequences(&[], &[], &params).is_none());
}

#[test]
fn test_with_gaps() {
    let seq_a: Vec<u32> = (1..=12).collect();
    let seq_b: Vec<u32> = vec![1, 2, 100, 4, 5, 6, 100, 8, 9, 10, 11, 12];
    let params = default_params();

    let result = align_lemma_sequences(&seq_a, &seq_b, &params);
    assert!(result.is_some());

    let alignment = result.unwrap();
    assert!(alignment.lemma_matches >= 10);
}

#[test]
fn test_min_length_threshold() {
    let seq: Vec<u32> = (0..8).collect();
    let params = default_params();

    let result = align_lemma_sequences(&seq, &seq, &params);
    assert!(result.is_none());
}

#[test]
fn test_min_similarity_threshold() {
    let seq_a: Vec<u32> = (0..20).collect();
    let seq_b: Vec<u32> = (0..20)
        .map(|i| if i % 3 == 0 { i } else { i + 1000 })
        .collect();
    let params = ComparisonParams {
        min_length: 5,
        min_similarity: 400,
        match_score: 2,
        mismatch_penalty: -1,
        gap_penalty: -1,
        ..Default::default()
    };

    let _result = align_lemma_sequences(&seq_a, &seq_b, &params);
}

#[test]
fn test_banded_alignment() {
    let seq: Vec<u32> = (0..100).collect();
    let params = default_params();

    let result_full = align_lemma_sequences(&seq, &seq, &params);
    let result_banded = align_lemma_sequences_banded(&seq, &seq, &params, 20);

    assert!(result_full.is_some());
    assert!(result_banded.is_some());

    let full = result_full.unwrap();
    let banded = result_banded.unwrap();

    assert_eq!(full.lemma_matches, banded.lemma_matches);
}

#[test]
fn test_quick_similarity_check() {
    let seq_a: Vec<u32> = (0..20).collect();
    let seq_b: Vec<u32> = (10..30).collect();

    assert!(quick_similarity_check(&seq_a, &seq_b, 5));
    assert!(quick_similarity_check(&seq_a, &seq_b, 10));
    assert!(!quick_similarity_check(&seq_a, &seq_b, 15));

    let seq_c: Vec<u32> = (100..120).collect();
    assert!(!quick_similarity_check(&seq_a, &seq_c, 1));
}

#[test]
fn test_alignment_positions() {
    let seq_a: Vec<u32> = vec![100, 101, 1, 2, 3, 4, 5, 6, 7, 8, 9, 10, 102, 103];
    let seq_b: Vec<u32> = vec![200, 1, 2, 3, 4, 5, 6, 7, 8, 9, 10, 201, 202];
    let params = default_params();

    let result = align_lemma_sequences(&seq_a, &seq_b, &params);
    assert!(result.is_some());

    let alignment = result.unwrap();
    assert_eq!(alignment.start_a, 2);
    assert_eq!(alignment.start_b, 1);
}

#[test]
fn test_root_mode_matching() {
    let lemmas_a: Vec<u32> = (0..20).collect();
    let lemmas_b: Vec<u32> = (100..120).collect();
    let roots_a: Vec<u32> = (1..21).collect();
    let roots_b: Vec<u32> = (1..21).collect();

    let mut params = default_params();
    params.mode = MatchMode::Root;

    let result = align_sequences(&lemmas_a, &lemmas_b, &roots_a, &roots_b, &params);
    assert!(result.is_some());

    let alignment = result.unwrap();
    assert_eq!(alignment.lemma_matches, 0);
    assert!(alignment.root_only_matches >= 10);
}

#[test]
fn test_combined_mode_matching() {
    let lemmas_a: Vec<u32> = (0..20).collect();
    let lemmas_b: Vec<u32> = (0..20)
        .map(|i| if i < 10 { i } else { i + 1000 })
        .collect();
    let roots_a: Vec<u32> = (1..21).collect();
    let roots_b: Vec<u32> = (1..21).collect();

    let mut params = default_params();
    params.mode = MatchMode::Combined;

    let result = align_sequences(&lemmas_a, &lemmas_b, &roots_a, &roots_b, &params);
    assert!(result.is_some());

    let alignment = result.unwrap();
    assert_eq!(alignment.lemma_matches, 10);
    assert!(alignment.root_only_matches >= 5);
}

#[test]
fn test_root_zero_not_matched() {
    let lemmas_a: Vec<u32> = (0..15).collect();
    let lemmas_b: Vec<u32> = (100..115).collect();
    let roots_a: Vec<u32> = vec![0; 15];
    let roots_b: Vec<u32> = vec![0; 15];

    let mut params = default_params();
    params.mode = MatchMode::Root;

    let result = align_sequences(&lemmas_a, &lemmas_b, &roots_a, &roots_b, &params);
    assert!(result.is_none());
}

#[test]
fn test_lemma_mode_ignores_roots() {
    let lemmas_a: Vec<u32> = (0..15).collect();
    let lemmas_b: Vec<u32> = (100..115).collect();
    let roots_a: Vec<u32> = (1..16).collect();
    let roots_b: Vec<u32> = (1..16).collect();

    let mut params = default_params();
    params.mode = MatchMode::Lemma;

    let result = align_sequences(&lemmas_a, &lemmas_b, &roots_a, &roots_b, &params);
    assert!(result.is_none());
}

#[test]
fn test_combined_scoring() {
    let lemmas_a: Vec<u32> = vec![1, 2, 3, 4, 5, 6, 7, 8, 9, 10, 11, 12];
    let lemmas_b: Vec<u32> = vec![1, 2, 3, 4, 5, 100, 100, 100, 100, 100, 11, 12];
    let roots_a: Vec<u32> = vec![1, 2, 3, 4, 5, 6, 7, 8, 9, 10, 11, 12];
    let roots_b: Vec<u32> = vec![1, 2, 3, 4, 5, 6, 7, 8, 9, 10, 11, 12];

    let mut params = default_params();
    params.mode = MatchMode::Combined;
    params.lemma_score = 2;
    params.root_score = 1;

    let result = align_sequences(&lemmas_a, &lemmas_b, &roots_a, &roots_b, &params);
    assert!(result.is_some());

    let alignment = result.unwrap();
    assert!(alignment.lemma_matches >= 7);
    assert!(alignment.root_only_matches >= 3);
}

#[test]
fn test_gap_tolerance_alignment() {
    // A full run of 30 ids against the same run with every 5th element
    // removed still aligns, with gaps reported and at least 20 matches.
    let seq_a: Vec<u32> = (0..30).collect();
    let seq_b: Vec<u32> = (0..30).filter(|x| x % 5 != 0).collect();
    let params = default_params();

    let result = align_lemma_sequences(&seq_a, &seq_b, &params);
    assert!(result.is_some());
    let alignment = result.unwrap();
    assert!(alignment.gaps > 0);
    assert!(alignment.lemma_matches >= 20);
}

#[test]
fn test_counts_partition_aligned_pairs() {
    // Every aligned pair is classified exactly once.
    let lemmas_a: Vec<u32> = vec![1, 2, 3, 4, 5, 6, 7, 8, 9, 10, 11, 12];
    let lemmas_b: Vec<u32> = vec![1, 2, 3, 4, 5, 100, 100, 100, 100, 100, 11, 12];
    let roots_a: Vec<u32> = vec![1, 2, 3, 4, 5, 6, 7, 8, 9, 10, 11, 12];
    let roots_b: Vec<u32> = vec![1, 2, 3, 4, 5, 6, 7, 0, 0, 0, 11, 12];

    let mut params = default_params();
    params.mode = MatchMode::Combined;

    let result = align_sequences(&lemmas_a, &lemmas_b, &roots_a, &roots_b, &params);
    assert!(result.is_some());
    let al = result.unwrap();
    assert_eq!(
        al.aligned_pairs.len(),
        (al.lemma_matches + al.substitutions + al.root_only_matches) as usize
    );
}

#[test]
fn test_count_root_matches_counts_shared_roots() {
    let pairs: Vec<(usize, usize)> = vec![(0, 0), (1, 1), (2, 2)];
    let lemmas: Vec<u32> = vec![1, 2, 3];
    let roots_a: Vec<u32> = vec![7, 0, 9];
    let roots_b: Vec<u32> = vec![7, 0, 8];
    // Only the first pair shares a non-zero root.
    assert_eq!(count_root_matches(&pairs, &lemmas, &lemmas, &roots_a, &roots_b), 1);
}
