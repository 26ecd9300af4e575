//! Loader logic for the corpus store: decoding page token blobs and
//! assembling book streams from raw page rows. The store itself is
//! read by a driver, which hands the raw rows in and gets validated,
//! well-formed streams back.

use vstd::prelude::*;

use crate::compare::DbError;
use crate::models::{BookLemmaStream, BookTokenStream, PageLemmas, PageTokens};

verus! {

/// A raw page row from the corpus store: its coordinates and its
/// packed little-endian token id blob.
#[derive(Debug, Clone)]
pub struct PageRow {
    pub part_index: u32,
    pub page_id: u32,
    pub token_blob: Vec<u8>,
}

/// The 32-bit id packed at little-endian byte quadruple (b0, b1, b2, b3).
pub open spec fn le_u32(b0: u8, b1: u8, b2: u8, b3: u8) -> u32 {
    (b0 + 256 * (b1 + 256 * (b2 + 256 * (b3 as int)))) as u32
}

/// The token ids packed in a blob whose length is a multiple of 4.
pub open spec fn spec_decode_blob(blob: Seq<u8>) -> Seq<u32> {
    Seq::new((blob.len() / 4) as nat, |i: int| le_u32(
        blob[4 * i],
        blob[4 * i + 1],
        blob[4 * i + 2],
        blob[4 * i + 3],
    ))
}

/// Unpack a little-endian packed u32 array. Fails with
/// `InvalidTokenBlob` exactly when the byte length is not a multiple
/// of 4.
#[verifier::loop_isolation(false)]
pub fn decode_token_blob(blob: &[u8]) -> (r: Result<Vec<u32>, DbError>)
    ensures
        (r is Ok <==> blob@.len() % 4 == 0),
        (r matches Ok(tokens) ==> tokens@ == spec_decode_blob(blob@)),
        (r is Err ==> r->Err_0 is InvalidTokenBlob),
{
    if blob.len() % 4 != 0 {
        return Err(DbError::InvalidTokenBlob);
    }
    let count = blob.len() / 4;
    let mut tokens: Vec<u32> = Vec::new();
    let mut i: usize = 0;
    proof {
        vstd::arithmetic::div_mod::lemma_fundamental_div_mod(blob@.len() as int, 4);
    }
    while i < count
        invariant
            i <= count,
            count == blob@.len() / 4,
            4 * count == blob@.len(),
            tokens@.len() == i,
            forall|t: int| 0 <= t < i ==> #[trigger] tokens@[t] == le_u32(
                blob@[4 * t],
                blob@[4 * t + 1],
                blob@[4 * t + 2],
                blob@[4 * t + 3],
            ),
        decreases count - i,
    {
        proof {
            assert(4 * i + 3 < blob@.len()) by (nonlinear_arith)
                requires 0 <= i < count, 4 * count == blob@.len();
        }
        let base = 4 * i;
        let b0 = blob[base] as u32;
        let b1 = blob[base + 1] as u32;
        let b2 = blob[base + 2] as u32;
        let b3 = blob[base + 3] as u32;
        let v = b0 + 256 * b1 + 65536 * b2 + 16777216 * b3;
        tokens.push(v);
        i = i + 1;
    }
    proof {
        assert(tokens@ =~= spec_decode_blob(blob@));
    }
    Ok(tokens)
}

/// The attribute mapped from a token id: the table entry where the id
/// is in range, else 0.
pub open spec fn mapped_id(table: Seq<u32>, tid: u32) -> u32 {
    if tid < table.len() {
        table[tid as int]
    } else {
        0u32
    }
}

/// The token ids mapped through an attribute table, with 0 for ids
/// past the table's end.
pub open spec fn spec_map_ids(tokens: Seq<u32>, table: Seq<u32>) -> Seq<u32> {
    Seq::new(tokens.len(), |i: int| mapped_id(table, tokens[i]))
}

/// Map token ids to an attribute (lemma or root), with 0 as default.
#[verifier::loop_isolation(false)]
pub fn map_token_ids(tokens: &Vec<u32>, table: &[u32]) -> (r: Vec<u32>)
    ensures
        r@ == spec_map_ids(tokens@, table@),
{
    let mut r: Vec<u32> = Vec::new();
    let mut i: usize = 0;
    while i < tokens.len()
        invariant
            i <= tokens@.len(),
            r@.len() == i,
            forall|t: int| 0 <= t < i ==> #[trigger] r@[t] == mapped_id(table@, tokens@[t]),
        decreases tokens@.len() - i,
    {
        let tid = tokens[i] as usize;
        if tid < table.len() {
            r.push(table[tid]);
        } else {
            r.push(0);
        }
        i = i + 1;
    }
    proof {
        assert(r@ =~= spec_map_ids(tokens@, table@));
    }
    r
}

/// The token ids mapped through a table, skipping ids past its end.
pub open spec fn spec_map_ids_skip(tokens: Seq<u32>, table: Seq<u32>) -> Seq<u32>
    decreases tokens.len(),
{
    if tokens.len() == 0 {
        Seq::empty()
    } else {
        let p = spec_map_ids_skip(tokens.drop_last(), table);
        if tokens.last() < table.len() {
            p.push(table[tokens.last() as int])
        } else {
            p
        }
    }
}

/// Map token ids to lemma ids, skipping invalid token ids.
#[verifier::loop_isolation(false)]
pub fn map_token_ids_skip(tokens: &Vec<u32>, table: &[u32]) -> (r: Vec<u32>)
    ensures
        r@ == spec_map_ids_skip(tokens@, table@),
{
    let mut r: Vec<u32> = Vec::new();
    let mut i: usize = 0;
    while i < tokens.len()
        invariant
            i <= tokens@.len(),
            r@ == spec_map_ids_skip(tokens@.take(i as int), table@),
        decreases tokens@.len() - i,
    {
        proof {
            assert(tokens@.take(i + 1).drop_last() =~= tokens@.take(i as int));
            assert(tokens@.take(i + 1).last() == tokens@[i as int]);
        }
        let tid = tokens[i] as usize;
        if tid < table.len() {
            r.push(table[tid]);
        }
        i = i + 1;
    }
    proof {
        assert(tokens@.take(tokens@.len() as int) =~= tokens@);
    }
    r
}

/// Total number of token ids packed in a row list.
pub open spec fn rows_token_total(rows: Seq<PageRow>) -> int
    decreases rows.len(),
{
    if rows.len() == 0 {
        0
    } else {
        rows_token_total(rows.drop_last()) + rows.last().token_blob@.len() / 4
    }
}

pub proof fn lemma_rows_token_total_prefix(rows: Seq<PageRow>, i: int)
    requires
        0 <= i <= rows.len(),
    ensures
        0 <= rows_token_total(rows.take(i)) <= rows_token_total(rows),
    decreases rows.len() - i,
{
    if i == rows.len() {
        assert(rows.take(i) =~= rows);
        lemma_rows_token_total_nonneg(rows);
    } else {
        lemma_rows_token_total_prefix(rows, i + 1);
        lemma_rows_token_total_nonneg(rows.take(i));
        assert(rows.take(i + 1).drop_last() =~= rows.take(i));
        assert(rows.take(i + 1).last() == rows[i]);
        vstd::arithmetic::div_mod::lemma_div_pos_is_pos(rows[i].token_blob@.len() as int, 4);
    }
}

pub proof fn lemma_rows_token_total_nonneg(rows: Seq<PageRow>)
    ensures
        rows_token_total(rows) >= 0,
    decreases rows.len(),
{
    if rows.len() > 0 {
        lemma_rows_token_total_nonneg(rows.drop_last());
        vstd::arithmetic::div_mod::lemma_div_pos_is_pos(rows.last().token_blob@.len() as int, 4);
    }
}

/// Whether every row's blob length is a multiple of 4.
pub open spec fn rows_valid(rows: Seq<PageRow>) -> bool {
    forall|i: int| 0 <= i < rows.len() ==> (#[trigger] rows[i]).token_blob@.len() % 4 == 0
}

/// Assemble a book's token stream from raw page rows and the token
/// attribute tables. Fails with `InvalidTokenBlob` when a blob length
/// is not a multiple of 4, and with `BookNotFound` when there are no
/// rows at all; otherwise the stream is well-formed and mirrors the
/// rows page by page.
#[verifier::loop_isolation(false)]
pub fn build_book_token_stream(
    book_id: u32,
    rows: &Vec<PageRow>,
    token_to_lemma: &[u32],
    token_to_root: &[u32],
) -> (r: Result<BookTokenStream, DbError>)
    requires
        rows@.len() < 0x1000_0000,
        rows_token_total(rows@) < 0x4000_0000,
    ensures
        (r is Ok <==> rows@.len() > 0 && rows_valid(rows@)),
        (r matches Ok(stream) ==> {
            &&& stream.wf()
            &&& stream.book_id == book_id
            &&& stream.total_tokens < 0x4000_0000
            &&& stream.pages@.len() == rows@.len()
            &&& forall|i: int| 0 <= i < rows@.len() ==> {
                let page = #[trigger] stream.pages@[i];
                &&& page.part_index == rows@[i].part_index
                &&& page.page_id == rows@[i].page_id
                &&& page.token_ids@ == spec_decode_blob(rows@[i].token_blob@)
                &&& page.lemma_ids@ == spec_map_ids(page.token_ids@, token_to_lemma@)
                &&& page.root_ids@ == spec_map_ids(page.token_ids@, token_to_root@)
            }
        }),
        (r matches Err(e) ==> (rows@.len() == 0 && e is BookNotFound) || (!rows_valid(rows@)
            && e is InvalidTokenBlob)),
{
    let ghost rv = rows@;
    let mut pages: Vec<PageTokens> = Vec::new();
    let mut total_tokens: usize = 0;
    let mut i: usize = 0;
    while i < rows.len()
        invariant
            i <= rv.len(),
            pages@.len() == i,
            forall|t: int| 0 <= t < i ==> (#[trigger] rv[t]).token_blob@.len() % 4 == 0,
            forall|t: int| 0 <= t < i ==> {
                let page = #[trigger] pages@[t];
                &&& page.wf()
                &&& page.part_index == rv[t].part_index
                &&& page.page_id == rv[t].page_id
                &&& page.token_ids@ == spec_decode_blob(rv[t].token_blob@)
                &&& page.lemma_ids@ == spec_map_ids(page.token_ids@, token_to_lemma@)
                &&& page.root_ids@ == spec_map_ids(page.token_ids@, token_to_root@)
            },
            total_tokens == crate::models::lemma_stream_of_tokens(pages@).len(),
            total_tokens == rows_token_total(rv.take(i as int)),
        decreases rv.len() - i,
    {
        let row = &rows[i];
        let tokens = match decode_token_blob(row.token_blob.as_slice()) {
            Ok(t) => t,
            Err(e) => {
                return Err(e);
            },
        };
        let lemma_ids = map_token_ids(&tokens, token_to_lemma);
        let root_ids = map_token_ids(&tokens, token_to_root);
        let ghost prev_pages = pages@;
        proof {
            assert(rv.take(i + 1).drop_last() =~= rv.take(i as int));
            assert(rv.take(i + 1).last() == rv[i as int]);
            lemma_rows_token_total_prefix(rv, i + 1);
        }
        total_tokens = total_tokens + tokens.len();
        pages.push(
            PageTokens {
                part_index: row.part_index,
                page_id: row.page_id,
                token_ids: tokens,
                lemma_ids,
                root_ids,
            },
        );
        proof {
            assert(pages@.drop_last() =~= prev_pages);
        }
        i = i + 1;
    }
    proof {
        assert(rv.take(rv.len() as int) =~= rv);
        lemma_rows_token_total_prefix(rv, rv.len() as int);
    }
    if pages.len() == 0 {
        return Err(DbError::BookNotFound(book_id));
    }
    Ok(BookTokenStream { book_id, total_tokens, pages })
}

/// Assemble a book's lemma stream from raw page rows: token ids are
/// decoded and mapped to lemma ids, skipping ids outside the table.
#[verifier::loop_isolation(false)]
pub fn build_book_lemma_stream(
    book_id: u32,
    rows: &Vec<PageRow>,
    token_to_lemma: &[u32],
) -> (r: Result<BookLemmaStream, DbError>)
    requires
        rows@.len() < 0x1000_0000,
        rows_token_total(rows@) < 0x4000_0000,
    ensures
        (r is Ok <==> rows@.len() > 0 && rows_valid(rows@)),
        (r matches Ok(stream) ==> {
            &&& stream.wf()
            &&& stream.book_id == book_id
            &&& stream.total_tokens < 0x4000_0000
            &&& stream.pages@.len() == rows@.len()
            &&& forall|i: int| 0 <= i < rows@.len() ==> {
                let page = #[trigger] stream.pages@[i];
                &&& page.part_index == rows@[i].part_index
                &&& page.page_id == rows@[i].page_id
                &&& page.lemma_ids@ == spec_map_ids_skip(
                    spec_decode_blob(rows@[i].token_blob@),
                    token_to_lemma@,
                )
            }
        }),
        (r matches Err(e) ==> (rows@.len() == 0 && e is BookNotFound) || (!rows_valid(rows@)
            && e is InvalidTokenBlob)),
{
    let ghost rv = rows@;
    let mut pages: Vec<PageLemmas> = Vec::new();
    let mut total_tokens: usize = 0;
    let mut i: usize = 0;
    while i < rows.len()
        invariant
            i <= rv.len(),
            pages@.len() == i,
            forall|t: int| 0 <= t < i ==> (#[trigger] rv[t]).token_blob@.len() % 4 == 0,
            forall|t: int| 0 <= t < i ==> {
                let page = #[trigger] pages@[t];
                &&& page.part_index == rv[t].part_index
                &&& page.page_id == rv[t].page_id
                &&& page.lemma_ids@ == spec_map_ids_skip(
                    spec_decode_blob(rv[t].token_blob@),
                    token_to_lemma@,
                )
            },
            total_tokens == crate::models::lemma_stream_of(pages@).len(),
            total_tokens <= rows_token_total(rv.take(i as int)),
        decreases rv.len() - i,
    {
        let row = &rows[i];
        let tokens = match decode_token_blob(row.token_blob.as_slice()) {
            Ok(t) => t,
            Err(e) => {
                return Err(e);
            },
        };
        let lemma_ids = map_token_ids_skip(&tokens, token_to_lemma);
        let ghost prev_pages = pages@;
        proof {
            lemma_map_skip_len(tokens@, token_to_lemma@);
            assert(rv.take(i + 1).drop_last() =~= rv.take(i as int));
            assert(rv.take(i + 1).last() == rv[i as int]);
            lemma_rows_token_total_prefix(rv, i + 1);
        }
        total_tokens = total_tokens + lemma_ids.len();
        pages.push(PageLemmas { part_index: row.part_index, page_id: row.page_id, lemma_ids });
        proof {
            assert(pages@.drop_last() =~= prev_pages);
        }
        i = i + 1;
    }
    proof {
        assert(rv.take(rv.len() as int) =~= rv);
        lemma_rows_token_total_prefix(rv, rv.len() as int);
    }
    if pages.len() == 0 {
        return Err(DbError::BookNotFound(book_id));
    }
    Ok(BookLemmaStream { book_id, total_tokens, pages })
}

/// The skip-mapping never yields more ids than tokens.
pub proof fn lemma_map_skip_len(tokens: Seq<u32>, table: Seq<u32>)
    ensures
        spec_map_ids_skip(tokens, table).len() <= tokens.len(),
    decreases tokens.len(),
{
    if tokens.len() > 0 {
        lemma_map_skip_len(tokens.drop_last(), table);
    }
}

} // verus!