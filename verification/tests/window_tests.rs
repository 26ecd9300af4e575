//! Tests for window generation and page-offset tracking.

use kashshaf_reuse::models::{BookLemmaStream, ComparisonParams, PageLemmas};
use kashshaf_reuse::window::{calculate_window_count, generate_windows};

fn create_test_stream(page_sizes: &[usize]) -> BookLemmaStream {
    let mut pages = Vec::new();
    let mut total_tokens = 0;
    let mut lemma_counter = 1u32;

    for (i, &size) in page_sizes.iter().enumerate() {
        let lemma_ids: Vec<u32> = (lemma_counter..lemma_counter + size as u32).collect();
        lemma_counter += size as u32;
        total_tokens += size;

        pages.push(PageLemmas {
            part_index: 1,
            page_id: i as u32 + 1,
            lemma_ids,
        });
    }

    BookLemmaStream {
        book_id: 1,
        total_tokens,
        pages,
    }
}

#[test]
fn test_empty_stream() {
    let stream = BookLemmaStream {
        book_id: 1,
        total_tokens: 0,
        pages: vec![],
    };
    let params = ComparisonParams::default();
    let windows = generate_windows(&stream, &params);
    assert!(windows.is_empty());
}

#[test]
fn test_small_stream_single_window() {
    let stream = create_test_stream(&[50]);
    let params = ComparisonParams {
        window_size: 275,
        stride: 60,
        min_length: 10,
        ..Default::default()
    };
    let windows = generate_windows(&stream, &params);

    assert_eq!(windows.len(), 1);
    assert_eq!(windows[0].lemma_ids.len(), 50);
    assert_eq!(windows[0].global_start, 0);
    assert_eq!(windows[0].global_end, 50);
}

#[test]
fn test_exact_window_size() {
    let stream = create_test_stream(&[275]);
    let params = ComparisonParams {
        window_size: 275,
        stride: 275,
        min_length: 10,
        ..Default::default()
    };
    let windows = generate_windows(&stream, &params);

    assert_eq!(windows.len(), 1);
    assert_eq!(windows[0].lemma_ids.len(), 275);
}

#[test]
fn test_multiple_windows() {
    let stream = create_test_stream(&[500]);
    let params = ComparisonParams {
        window_size: 275,
        stride: 60,
        min_length: 10,
        ..Default::default()
    };
    let windows = generate_windows(&stream, &params);

    assert!(windows.len() >= 4);

    assert_eq!(windows[0].global_start, 0);
    assert_eq!(windows[0].global_end, 275);

    assert_eq!(windows[1].global_start, 60);
    assert_eq!(windows[1].global_end, 335);
}

#[test]
fn test_page_boundary_tracking() {
    let stream = create_test_stream(&[100, 100, 100, 100]);
    let params = ComparisonParams {
        window_size: 150,
        stride: 50,
        min_length: 10,
        ..Default::default()
    };
    let windows = generate_windows(&stream, &params);

    assert_eq!(windows[0].start_page, (1, 1));
    assert_eq!(windows[0].end_page, (1, 2));
}

#[test]
fn test_window_idx_increments() {
    let stream = create_test_stream(&[500]);
    let params = ComparisonParams {
        window_size: 100,
        stride: 50,
        min_length: 10,
        ..Default::default()
    };
    let windows = generate_windows(&stream, &params);

    for (i, window) in windows.iter().enumerate() {
        assert_eq!(window.window_idx, i as u32);
    }
}

#[test]
fn test_calculate_window_count() {
    let params = ComparisonParams {
        window_size: 275,
        stride: 60,
        min_length: 10,
        ..Default::default()
    };

    assert_eq!(calculate_window_count(0, &params), 0);

    assert_eq!(calculate_window_count(50, &params), 1);

    // One full window at 0, and a trailing partial window from 60.
    assert_eq!(calculate_window_count(275, &params), 2);

    let count = calculate_window_count(1000, &params);
    assert!(count > 1);
}

#[test]
fn test_window_lengths_match_positions() {
    // Every window's id slices are exactly as long as its span.
    let stream = create_test_stream(&[120, 130, 140]);
    let params = ComparisonParams {
        window_size: 100,
        stride: 40,
        min_length: 10,
        ..Default::default()
    };
    let windows = generate_windows(&stream, &params);
    assert_eq!(windows.len(), calculate_window_count(390, &params));
    for w in &windows {
        assert_eq!(w.lemma_ids.len(), w.global_end - w.global_start);
        assert_eq!(w.root_ids.len(), w.global_end - w.global_start);
    }
}

#[test]
fn test_windowing_total_cover() {
    // With stride at most the window size, every position up to
    // total - window_size lies inside some full window.
    let stream = create_test_stream(&[500]);
    let params = ComparisonParams {
        window_size: 100,
        stride: 60,
        min_length: 10,
        ..Default::default()
    };
    let windows = generate_windows(&stream, &params);
    for p in 0..(500 - 100 + 1) {
        let covered = windows.iter().any(|w| {
            w.global_end - w.global_start == 100 && w.global_start <= p && p < w.global_end
        });
        assert!(covered);
    }
}
