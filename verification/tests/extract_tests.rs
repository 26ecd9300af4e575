//! Tests for lemma extraction utilities and the loader logic.

use kashshaf_reuse::compare::DbError;
use kashshaf_reuse::db::{build_book_lemma_stream, decode_token_blob, PageRow};
use kashshaf_reuse::extract::{
    calculate_lemma_stats, find_position_by_page, get_lemma_slice, get_page_lemmas,
};
use kashshaf_reuse::models::{BookLemmaStream, PageLemmas};

fn create_test_stream() -> BookLemmaStream {
    BookLemmaStream {
        book_id: 1,
        total_tokens: 30,
        pages: vec![
            PageLemmas {
                part_index: 1,
                page_id: 1,
                lemma_ids: vec![1, 2, 3, 4, 5, 6, 7, 8, 9, 10],
            },
            PageLemmas {
                part_index: 1,
                page_id: 2,
                lemma_ids: vec![11, 12, 13, 14, 15, 16, 17, 18, 19, 20],
            },
            PageLemmas {
                part_index: 2,
                page_id: 1,
                lemma_ids: vec![21, 22, 23, 24, 25, 26, 27, 28, 29, 30],
            },
        ],
    }
}

#[test]
fn test_get_lemma_slice() {
    let stream = create_test_stream();

    let slice = get_lemma_slice(&stream, 5, 15);
    assert_eq!(slice, vec![6, 7, 8, 9, 10, 11, 12, 13, 14, 15]);

    let slice = get_lemma_slice(&stream, 0, 5);
    assert_eq!(slice, vec![1, 2, 3, 4, 5]);

    let slice = get_lemma_slice(&stream, 25, 35);
    assert_eq!(slice, vec![26, 27, 28, 29, 30]);

    let slice = get_lemma_slice(&stream, 100, 110);
    assert!(slice.is_empty());
}

#[test]
fn test_find_position_by_page() {
    let stream = create_test_stream();

    assert_eq!(find_position_by_page(&stream, 1, 1), Some(0));
    assert_eq!(find_position_by_page(&stream, 1, 2), Some(10));
    assert_eq!(find_position_by_page(&stream, 2, 1), Some(20));
    assert_eq!(find_position_by_page(&stream, 3, 1), None);
}

#[test]
fn test_get_page_lemmas() {
    let stream = create_test_stream();

    let lemmas = get_page_lemmas(&stream, 1, 1);
    assert!(lemmas.is_some());
    assert_eq!(lemmas.unwrap().as_slice(), &[1, 2, 3, 4, 5, 6, 7, 8, 9, 10]);

    let lemmas = get_page_lemmas(&stream, 2, 1);
    assert!(lemmas.is_some());
    assert_eq!(lemmas.unwrap().len(), 10);

    let lemmas = get_page_lemmas(&stream, 3, 1);
    assert!(lemmas.is_none());
}

#[test]
fn test_calculate_lemma_stats() {
    let stream = create_test_stream();
    let stats = calculate_lemma_stats(&stream);

    assert_eq!(stats.total_tokens, 30);
    assert_eq!(stats.unique_lemmas, 30);
    assert_eq!(stats.page_count, 3);
    // 10 tokens per page, per-mille.
    assert_eq!(stats.avg_tokens_per_page, 10000);
}

#[test]
fn test_calculate_lemma_stats_with_duplicates() {
    let stream = BookLemmaStream {
        book_id: 1,
        total_tokens: 10,
        pages: vec![PageLemmas {
            part_index: 1,
            page_id: 1,
            lemma_ids: vec![1, 1, 1, 2, 2, 3, 4, 5, 5, 5],
        }],
    };
    let stats = calculate_lemma_stats(&stream);

    assert_eq!(stats.total_tokens, 10);
    assert_eq!(stats.unique_lemmas, 5);

    let (most_common, count) = stats.most_common_lemma.unwrap();
    assert_eq!(count, 3);
    assert!(most_common == 1 || most_common == 5);
}

#[test]
fn test_token_blob_unpacking() {
    let blob: Vec<u8> = vec![
        1, 0, 0, 0, // 1
        2, 0, 0, 0, // 2
        255, 0, 0, 0, // 255
    ];

    let tokens = decode_token_blob(&blob).unwrap();
    assert_eq!(tokens, vec![1, 2, 255]);
}

#[test]
fn test_token_blob_big_endian_bytes() {
    // 0x01020304 little-endian is (4, 3, 2, 1).
    let blob: Vec<u8> = vec![4, 3, 2, 1];
    let tokens = decode_token_blob(&blob).unwrap();
    assert_eq!(tokens, vec![0x01020304]);
}

#[test]
fn test_invalid_token_blob_rejected() {
    let blob: Vec<u8> = vec![1, 0, 0];
    let r = decode_token_blob(&blob);
    assert!(matches!(r, Err(DbError::InvalidTokenBlob)));
}

#[test]
fn test_book_not_found_on_empty_rows() {
    let rows: Vec<PageRow> = vec![];
    let table: Vec<u32> = vec![0, 10, 20];
    let r = build_book_lemma_stream(7, &rows, &table);
    assert!(matches!(r, Err(DbError::BookNotFound(7))));
}

#[test]
fn test_build_lemma_stream_maps_tokens() {
    let rows = vec![PageRow {
        part_index: 1,
        page_id: 1,
        token_blob: vec![1, 0, 0, 0, 2, 0, 0, 0],
    }];
    let table: Vec<u32> = vec![100, 101, 102];
    let stream = build_book_lemma_stream(3, &rows, &table).unwrap();
    assert_eq!(stream.book_id, 3);
    assert_eq!(stream.total_tokens, 2);
    assert_eq!(stream.pages[0].lemma_ids, vec![101, 102]);
}

#[test]
fn test_build_lemma_stream_invalid_blob() {
    let rows = vec![PageRow {
        part_index: 1,
        page_id: 1,
        token_blob: vec![1, 0, 0],
    }];
    let table: Vec<u32> = vec![100];
    let r = build_book_lemma_stream(3, &rows, &table);
    assert!(matches!(r, Err(DbError::InvalidTokenBlob)));
}
