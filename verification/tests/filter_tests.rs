//! Tests for shingling and candidate filtering.

use kashshaf_reuse::filter::{
    count_unique_shingles, find_candidate_pairs, generate_shingles, generate_shingles_vec,
    jaccard_similarity,
};
use kashshaf_reuse::models::{ComparisonParams, Window};

fn create_test_window(book_id: u32, idx: u32, lemmas: Vec<u32>) -> Window {
    let len = lemmas.len();
    Window {
        book_id,
        window_idx: idx,
        global_start: 0,
        global_end: len,
        start_page: (1, 1),
        start_offset: 0,
        end_page: (1, 1),
        end_offset: 0,
        lemma_ids: lemmas,
        root_ids: vec![0; len],
    }
}

#[test]
fn test_generate_shingles_empty() {
    let shingles = generate_shingles(&[], 3);
    assert!(shingles.is_empty());
}

#[test]
fn test_generate_shingles_too_short() {
    let shingles = generate_shingles(&[1, 2], 3);
    assert!(shingles.is_empty());
}

#[test]
fn test_generate_shingles_exact_size() {
    let shingles = generate_shingles(&[1, 2, 3], 3);
    assert_eq!(shingles.len(), 1);
    assert!(shingles.contains(&vec![1, 2, 3]));
}

#[test]
fn test_generate_shingles_multiple() {
    let shingles = generate_shingles(&[1, 2, 3, 4, 5], 3);
    assert_eq!(shingles.len(), 3);
    assert!(shingles.contains(&vec![1, 2, 3]));
    assert!(shingles.contains(&vec![2, 3, 4]));
    assert!(shingles.contains(&vec![3, 4, 5]));
}

#[test]
fn test_generate_shingles_with_duplicates() {
    let shingles = generate_shingles(&[1, 2, 1, 2, 1, 2], 2);
    assert_eq!(shingles.len(), 2);
}

#[test]
fn test_generate_shingles_vec_keeps_repeats() {
    let shingles = generate_shingles_vec(&[1, 2, 1, 2], 2);
    assert_eq!(shingles.len(), 3);
    assert_eq!(shingles[0], vec![1, 2]);
    assert_eq!(shingles[1], vec![2, 1]);
    assert_eq!(shingles[2], vec![1, 2]);
}

#[test]
fn test_find_candidate_pairs_brute_force() {
    let windows_a = vec![
        create_test_window(1, 0, vec![1, 2, 3]),
        create_test_window(1, 1, vec![4, 5, 6]),
    ];
    let windows_b = vec![
        create_test_window(2, 0, vec![7, 8, 9]),
        create_test_window(2, 1, vec![10, 11, 12]),
        create_test_window(2, 2, vec![13, 14, 15]),
    ];

    let params = ComparisonParams {
        brute_force: true,
        ..Default::default()
    };

    let pairs = find_candidate_pairs(&windows_a, &windows_b, &params);
    assert_eq!(pairs.len(), 6);
}

#[test]
fn test_find_candidate_pairs_filtered() {
    let windows_a = vec![
        create_test_window(1, 0, vec![1, 2, 3, 4, 5, 6, 7, 8, 9, 10]),
        create_test_window(1, 1, vec![100, 101, 102, 103, 104, 105, 106, 107, 108, 109]),
    ];
    let windows_b = vec![
        create_test_window(2, 0, vec![1, 2, 3, 4, 5, 200, 201, 202, 203, 204]),
        create_test_window(2, 1, vec![300, 301, 302, 303, 304, 305, 306, 307, 308, 309]),
    ];

    let params = ComparisonParams {
        ngram_size: 3,
        min_shared_shingles: 2,
        brute_force: false,
        ..Default::default()
    };

    let pairs = find_candidate_pairs(&windows_a, &windows_b, &params);

    assert!(!pairs.is_empty());
    assert!(pairs.contains(&(0, 0)));
    assert!(!pairs.contains(&(1, 1)));
}

#[test]
fn test_jaccard_similarity() {
    let set_a: Vec<Vec<u32>> = vec![vec![1, 2], vec![2, 3], vec![3, 4]];
    let set_b: Vec<Vec<u32>> = vec![vec![2, 3], vec![3, 4], vec![4, 5]];

    // Intersection 2, union 4: 500 per-mille.
    let similarity = jaccard_similarity(&set_a, &set_b);
    assert_eq!(similarity, 500);
}

#[test]
fn test_jaccard_similarity_identical() {
    let set: Vec<Vec<u32>> = vec![vec![1, 2], vec![2, 3]];
    let similarity = jaccard_similarity(&set, &set);
    assert_eq!(similarity, 1000);
}

#[test]
fn test_jaccard_similarity_disjoint() {
    let set_a: Vec<Vec<u32>> = vec![vec![1, 2]];
    let set_b: Vec<Vec<u32>> = vec![vec![3, 4]];
    let similarity = jaccard_similarity(&set_a, &set_b);
    assert_eq!(similarity, 0);
}

#[test]
fn test_count_unique_shingles_across_windows() {
    let windows = vec![
        create_test_window(1, 0, vec![1, 2, 3, 4]),
        create_test_window(1, 1, vec![2, 3, 4, 5]),
    ];
    // Window shingles of size 3: {123, 234} and {234, 345}: 3 distinct.
    assert_eq!(count_unique_shingles(&windows, 3), 3);
}

#[test]
fn test_brute_force_is_cartesian_product() {
    // Under brute force the candidate set is the full cartesian product
    // of window indices, whatever the windows hold.
    let windows_a = vec![
        create_test_window(1, 0, vec![1, 2, 3]),
        create_test_window(1, 1, vec![4, 5, 6]),
        create_test_window(1, 2, vec![7, 8, 9]),
    ];
    let windows_b = vec![
        create_test_window(2, 0, vec![10, 11, 12]),
        create_test_window(2, 1, vec![13, 14, 15]),
    ];
    let params = ComparisonParams {
        brute_force: true,
        ..Default::default()
    };
    let pairs = find_candidate_pairs(&windows_a, &windows_b, &params);
    assert_eq!(pairs.len(), 6);
    for x in 0..3 {
        for y in 0..2 {
            assert!(pairs.contains(&(x, y)));
        }
    }
}
