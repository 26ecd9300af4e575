//! Windowing logic: slice a book's flat lemma stream into overlapping
//! fixed-length windows while keeping a reversible map from each window
//! endpoint back to its (part, page, offset) coordinates.

use vstd::prelude::*;
use vstd::arithmetic::div_mod::lemma_fundamental_div_mod_converse;

use crate::models::{
    lemma_stream_of, lemma_stream_of_tokens, BookLemmaStream, BookTokenStream, ComparisonParams,
    PageLemmas, PageTokens, Window,
};

verus! {

/// Page offset entry: the half-open range of global positions a page
/// occupies in the flat stream.
pub struct PageOffset {
    pub part_index: u32,
    pub page_id: u32,
    pub start_offset: usize,
    /// Exclusive.
    pub end_offset: usize,
}

/// The offsets are the prefix sums of the page lengths of a lemma-page
/// sequence, with matching page coordinates.
pub open spec fn offsets_wf_lemma(offsets: Seq<PageOffset>, pages: Seq<PageLemmas>) -> bool {
    &&& offsets.len() == pages.len()
    &&& forall|k: int| 0 <= k < pages.len() ==> {
        &&& (#[trigger] offsets[k]).part_index == pages[k].part_index
        &&& offsets[k].page_id == pages[k].page_id
        &&& offsets[k].start_offset == lemma_stream_of(pages.take(k)).len()
        &&& offsets[k].end_offset == lemma_stream_of(pages.take(k + 1)).len()
    }
}

/// The same, for token-page sequences.
pub open spec fn offsets_wf_tokens(offsets: Seq<PageOffset>, pages: Seq<PageTokens>) -> bool {
    &&& offsets.len() == pages.len()
    &&& forall|k: int| 0 <= k < pages.len() ==> {
        &&& (#[trigger] offsets[k]).part_index == pages[k].part_index
        &&& offsets[k].page_id == pages[k].page_id
        &&& offsets[k].start_offset == lemma_stream_of_tokens(pages.take(k)).len()
        &&& offsets[k].end_offset == lemma_stream_of_tokens(pages.take(k + 1)).len()
    }
}

/// Offsets form a partition of [0, total) into consecutive ranges.
pub open spec fn offsets_partition(offsets: Seq<PageOffset>) -> bool {
    &&& forall|k: int| 0 <= k < offsets.len() ==> (#[trigger] offsets[k]).start_offset
        <= offsets[k].end_offset
    &&& forall|k: int| 0 <= k < offsets.len() - 1 ==> (#[trigger] offsets[k]).end_offset
        == offsets[k + 1].start_offset
    &&& (offsets.len() > 0 ==> offsets[0].start_offset == 0)
}

/// Position pos resolves to page coordinates (page, off) in a
/// lemma-page sequence: some page's range contains pos, and off is the
/// distance into that page.
pub open spec fn resolves_lemma(
    pages: Seq<PageLemmas>,
    pos: int,
    page: (u32, u32),
    off: u32,
) -> bool {
    exists|k: int| 0 <= k < pages.len() && lemma_stream_of(pages.take(k)).len() <= pos
        < lemma_stream_of(pages.take(k + 1)).len() && page == ((#[trigger] pages[k]).part_index,
    pages[k].page_id) && off == (pos - lemma_stream_of(pages.take(k)).len()) as u32
}

/// The same, for token-page sequences.
pub open spec fn resolves_tokens(
    pages: Seq<PageTokens>,
    pos: int,
    page: (u32, u32),
    off: u32,
) -> bool {
    exists|k: int| 0 <= k < pages.len() && lemma_stream_of_tokens(pages.take(k)).len() <= pos
        < lemma_stream_of_tokens(pages.take(k + 1)).len() && page == ((
    #[trigger] pages[k]).part_index, pages[k].page_id) && off == (pos - lemma_stream_of_tokens(
        pages.take(k),
    ).len()) as u32
}

/// A prefix of one more page extends the flat stream by that page.
pub proof fn lemma_stream_take_succ(pages: Seq<PageLemmas>, i: int)
    requires
        0 <= i < pages.len(),
    ensures
        lemma_stream_of(pages.take(i + 1)) == lemma_stream_of(pages.take(i)) + pages[i].lemma_ids@,
{
    assert(pages.take(i + 1).drop_last() =~= pages.take(i));
    assert(pages.take(i + 1).last() == pages[i]);
}

pub proof fn token_stream_take_succ(pages: Seq<PageTokens>, i: int)
    requires
        0 <= i < pages.len(),
    ensures
        lemma_stream_of_tokens(pages.take(i + 1)) == lemma_stream_of_tokens(pages.take(i))
            + pages[i].lemma_ids@,
{
    assert(pages.take(i + 1).drop_last() =~= pages.take(i));
    assert(pages.take(i + 1).last() == pages[i]);
}

/// Prefix lengths of the flat stream grow monotonically up to the whole.
pub proof fn lemma_stream_prefix_len(pages: Seq<PageLemmas>, i: int)
    requires
        0 <= i <= pages.len(),
    ensures
        lemma_stream_of(pages.take(i)).len() <= lemma_stream_of(pages).len(),
    decreases pages.len() - i,
{
    if i == pages.len() {
        assert(pages.take(i) =~= pages);
    } else {
        lemma_stream_take_succ(pages, i);
        lemma_stream_prefix_len(pages, i + 1);
    }
}

pub proof fn token_stream_prefix_len(pages: Seq<PageTokens>, i: int)
    requires
        0 <= i <= pages.len(),
    ensures
        lemma_stream_of_tokens(pages.take(i)).len() <= lemma_stream_of_tokens(pages).len(),
    decreases pages.len() - i,
{
    if i == pages.len() {
        assert(pages.take(i) =~= pages);
    } else {
        token_stream_take_succ(pages, i);
        token_stream_prefix_len(pages, i + 1);
    }
}

/// Well-formed offsets partition the stream.
pub proof fn lemma_offsets_wf_partition(offsets: Seq<PageOffset>, pages: Seq<PageLemmas>)
    requires
        offsets_wf_lemma(offsets, pages),
    ensures
        offsets_partition(offsets),
        offsets.len() > 0 ==> offsets[offsets.len() - 1].end_offset == lemma_stream_of(
            pages,
        ).len(),
{
    assert forall|k: int| 0 <= k < offsets.len() implies (#[trigger] offsets[k]).start_offset
        <= offsets[k].end_offset by {
        lemma_stream_take_succ(pages, k);
    }
    if offsets.len() > 0 {
        assert(pages.take(pages.len() as int) =~= pages);
    }
}

pub proof fn lemma_offsets_wf_partition_tokens(offsets: Seq<PageOffset>, pages: Seq<PageTokens>)
    requires
        offsets_wf_tokens(offsets, pages),
    ensures
        offsets_partition(offsets),
        offsets.len() > 0 ==> offsets[offsets.len() - 1].end_offset == lemma_stream_of_tokens(
            pages,
        ).len(),
{
    assert forall|k: int| 0 <= k < offsets.len() implies (#[trigger] offsets[k]).start_offset
        <= offsets[k].end_offset by {
        token_stream_take_succ(pages, k);
    }
    if offsets.len() > 0 {
        assert(pages.take(pages.len() as int) =~= pages);
    }
}

/// Build an index of page start/end offsets for position lookups.
#[verifier::loop_isolation(false)]
pub fn build_page_offsets(stream: &BookLemmaStream) -> (r: Vec<PageOffset>)
    requires
        stream.wf(),
    ensures
        offsets_wf_lemma(r@, stream.pages@),
{
    let ghost pages = stream.pages@;
    let mut offsets: Vec<PageOffset> = Vec::new();
    let mut current_offset: usize = 0;
    let mut i: usize = 0;
    while i < stream.pages.len()
        invariant
            i <= pages.len(),
            offsets@.len() == i,
            current_offset == lemma_stream_of(pages.take(i as int)).len(),
            forall|k: int| 0 <= k < i ==> {
                &&& (#[trigger] offsets@[k]).part_index == pages[k].part_index
                &&& offsets@[k].page_id == pages[k].page_id
                &&& offsets@[k].start_offset == lemma_stream_of(pages.take(k)).len()
                &&& offsets@[k].end_offset == lemma_stream_of(pages.take(k + 1)).len()
            },
        decreases pages.len() - i,
    {
        proof {
            lemma_stream_take_succ(pages, i as int);
            lemma_stream_prefix_len(pages, i + 1);
        }
        let end_offset = current_offset + stream.pages[i].lemma_ids.len();
        offsets.push(
            PageOffset {
                part_index: stream.pages[i].part_index,
                page_id: stream.pages[i].page_id,
                start_offset: current_offset,
                end_offset,
            },
        );
        current_offset = end_offset;
        i = i + 1;
    }
    offsets
}

/// Build an index of page start/end offsets for token streams.
#[verifier::loop_isolation(false)]
pub fn build_page_offsets_from_tokens(stream: &BookTokenStream) -> (r: Vec<PageOffset>)
    requires
        stream.wf(),
    ensures
        offsets_wf_tokens(r@, stream.pages@),
{
    let ghost pages = stream.pages@;
    let mut offsets: Vec<PageOffset> = Vec::new();
    let mut current_offset: usize = 0;
    let mut i: usize = 0;
    while i < stream.pages.len()
        invariant
            i <= pages.len(),
            offsets@.len() == i,
            current_offset == lemma_stream_of_tokens(pages.take(i as int)).len(),
            forall|k: int| 0 <= k < i ==> {
                &&& (#[trigger] offsets@[k]).part_index == pages[k].part_index
                &&& offsets@[k].page_id == pages[k].page_id
                &&& offsets@[k].start_offset == lemma_stream_of_tokens(pages.take(k)).len()
                &&& offsets@[k].end_offset == lemma_stream_of_tokens(pages.take(k + 1)).len()
            },
        decreases pages.len() - i,
    {
        proof {
            token_stream_take_succ(pages, i as int);
            token_stream_prefix_len(pages, i + 1);
        }
        let end_offset = current_offset + stream.pages[i].lemma_ids.len();
        offsets.push(
            PageOffset {
                part_index: stream.pages[i].part_index,
                page_id: stream.pages[i].page_id,
                start_offset: current_offset,
                end_offset,
            },
        );
        current_offset = end_offset;
        i = i + 1;
    }
    offsets
}

/// Binary search for the page whose range contains pos.
#[verifier::loop_isolation(false)]
fn locate(page_offsets: &Vec<PageOffset>, pos: usize) -> (r: ((u32, u32), u32))
    requires
        offsets_partition(page_offsets@),
        page_offsets@.len() > 0,
        pos < page_offsets@[page_offsets@.len() - 1].end_offset,
    ensures
        exists|k: int| 0 <= k < page_offsets@.len() && (#[trigger] page_offsets@[k]).start_offset
            <= pos < page_offsets@[k].end_offset && r.0 == (page_offsets@[k].part_index,
        page_offsets@[k].page_id) && r.1 == (pos - page_offsets@[k].start_offset) as u32,
{
    let mut lo: usize = 0;
    let mut hi: usize = page_offsets.len();
    while hi - lo > 1
        invariant
            0 <= lo < hi <= page_offsets@.len(),
            page_offsets@[lo as int].start_offset <= pos,
            pos < page_offsets@[hi - 1].end_offset,
        decreases hi - lo,
    {
        let mid = lo + (hi - lo) / 2;
        if pos < page_offsets[mid].start_offset {
            proof {
                assert(page_offsets@[mid - 1].end_offset == page_offsets@[mid as int].start_offset);
            }
            hi = mid;
        } else {
            lo = mid;
        }
    }
    let entry = &page_offsets[lo];
    proof {
        assert(pos < page_offsets@[lo as int].end_offset);
    }
    let off = (pos - entry.start_offset) as u32;
    ((entry.part_index, entry.page_id), off)
}

/// Resolve a global position to (part, page) and intra-page offset.
pub fn find_page_and_offset(
    page_offsets: &Vec<PageOffset>,
    _stream: &BookLemmaStream,
    pos: usize,
) -> (r: ((u32, u32), u32))
    requires
        offsets_wf_lemma(page_offsets@, _stream.pages@),
        pos < _stream.lemmas_spec().len(),
    ensures
        resolves_lemma(_stream.pages@, pos as int, r.0, r.1),
{
    proof {
        lemma_offsets_wf_partition(page_offsets@, _stream.pages@);
    }
    let r = locate(page_offsets, pos);
    proof {
        let k = choose|k: int| 0 <= k < page_offsets@.len() && (
        #[trigger] page_offsets@[k]).start_offset <= pos < page_offsets@[k].end_offset && r.0 == (
        page_offsets@[k].part_index, page_offsets@[k].page_id) && r.1 == (pos
            - page_offsets@[k].start_offset) as u32;
        assert(0 <= k < _stream.pages@.len() && lemma_stream_of(_stream.pages@.take(k)).len()
            <= pos < lemma_stream_of(_stream.pages@.take(k + 1)).len() && r.0 == ((
        _stream.pages@[k]).part_index, _stream.pages@[k].page_id) && r.1 == (pos
            - lemma_stream_of(_stream.pages@.take(k)).len()) as u32);
    }
    r
}

/// Resolve a global position for token streams.
pub fn find_page_and_offset_tokens(
    page_offsets: &Vec<PageOffset>,
    _stream: &BookTokenStream,
    pos: usize,
) -> (r: ((u32, u32), u32))
    requires
        offsets_wf_tokens(page_offsets@, _stream.pages@),
        pos < _stream.lemmas_spec().len(),
    ensures
        resolves_tokens(_stream.pages@, pos as int, r.0, r.1),
{
    proof {
        lemma_offsets_wf_partition_tokens(page_offsets@, _stream.pages@);
    }
    let r = locate(page_offsets, pos);
    proof {
        let k = choose|k: int| 0 <= k < page_offsets@.len() && (
        #[trigger] page_offsets@[k]).start_offset <= pos < page_offsets@[k].end_offset && r.0 == (
        page_offsets@[k].part_index, page_offsets@[k].page_id) && r.1 == (pos
            - page_offsets@[k].start_offset) as u32;
        assert(0 <= k < _stream.pages@.len() && lemma_stream_of_tokens(
            _stream.pages@.take(k),
        ).len() <= pos < lemma_stream_of_tokens(_stream.pages@.take(k + 1)).len() && r.0 == ((
        _stream.pages@[k]).part_index, _stream.pages@[k].page_id) && r.1 == (pos
            - lemma_stream_of_tokens(_stream.pages@.take(k)).len()) as u32);
    }
    r
}

/// Copy of the elements of v in positions [start, end).
pub fn copy_range(v: &Vec<u32>, start: usize, end: usize) -> (r: Vec<u32>)
    requires
        start <= end <= v@.len(),
    ensures
        r@ == v@.subrange(start as int, end as int),
{
    let mut r: Vec<u32> = Vec::new();
    let mut i = start;
    while i < end
        invariant
            start <= i <= end <= v@.len(),
            r@ =~= v@.subrange(start as int, i as int),
        decreases end - i,
    {
        r.push(v[i]);
        proof {
            assert(r@ =~= v@.subrange(start as int, i + 1));
        }
        i = i + 1;
    }
    r
}

/// Copy of the elements of a slice in positions [start, end).
pub fn copy_range_slice(v: &[u32], start: usize, end: usize) -> (r: Vec<u32>)
    requires
        start <= end <= v@.len(),
    ensures
        r@ == v@.subrange(start as int, end as int),
{
    let mut r: Vec<u32> = Vec::new();
    let mut i = start;
    while i < end
        invariant
            start <= i <= end <= v@.len(),
            r@ =~= v@.subrange(start as int, i as int),
        decreases end - i,
    {
        r.push(v[i]);
        proof {
            assert(r@ =~= v@.subrange(start as int, i + 1));
        }
        i = i + 1;
    }
    r
}

/// Copy of a whole id vector.
pub fn copy_vec(v: &Vec<u32>) -> (r: Vec<u32>)
    ensures
        r@ == v@,
{
    let r = copy_range(v, 0, v.len());
    proof {
        assert(v@.subrange(0, v@.len() as int) =~= v@);
    }
    r
}

/// A vector of n zeros.
pub fn zero_vec(n: usize) -> (r: Vec<u32>)
    ensures
        r@ == crate::align::zero_seq(n as nat),
{
    let r: Vec<u32> = vec![0u32; n];
    proof {
        assert(r@ =~= crate::align::zero_seq(n as nat));
    }
    r
}

/// Number of windows emitted for a stream of the given length: every
/// full window, plus the whole stream when it is shorter than a window,
/// plus a trailing partial window when the tail reaches min_length.
pub open spec fn spec_window_count(len: int, ws: int, stride: int, min_len: int) -> int {
    if len == 0 {
        0
    } else if len < ws {
        if len >= min_len {
            1int
        } else {
            0int
        }
    } else {
        let full = (len - ws) / stride + 1;
        let rem_start = full * stride;
        if rem_start < len && len - rem_start >= min_len {
            full + 1
        } else {
            full
        }
    }
}

/// Number of full (non-partial) windows.
pub open spec fn spec_full_count(len: int, ws: int, stride: int) -> int {
    if len < ws {
        0
    } else {
        (len - ws) / stride + 1
    }
}

/// Start of window k.
pub open spec fn spec_window_start(len: int, ws: int, stride: int, k: int) -> int {
    if len < ws {
        0
    } else {
        k * stride
    }
}

/// End of window k.
pub open spec fn spec_window_end(len: int, ws: int, stride: int, k: int) -> int {
    if len < ws {
        len
    } else if k < spec_full_count(len, ws, stride) {
        k * stride + ws
    } else {
        len
    }
}

/// The positional facts shared by both window generators.
pub open spec fn windows_positions_ok(
    windows: Seq<Window>,
    book_id: u32,
    len: int,
    ws: int,
    stride: int,
    min_len: int,
) -> bool {
    &&& windows.len() == spec_window_count(len, ws, stride, min_len)
    &&& forall|k: int| 0 <= k < windows.len() ==> {
        &&& (#[trigger] windows[k]).book_id == book_id
        &&& windows[k].window_idx == k
        &&& windows[k].global_start == spec_window_start(len, ws, stride, k)
        &&& windows[k].global_end == spec_window_end(len, ws, stride, k)
        &&& windows[k].wf()
    }
}

/// Everything the lemma-stream windower promises of its result: the
/// positional facts, each window's contents as a subrange of the flat
/// stream with all-zero roots, and page resolution of both endpoints.
/// These clauses determine the window sequence uniquely from the
/// stream and the parameters.
pub open spec fn lemma_stream_windows(
    ws: Seq<Window>,
    stream: BookLemmaStream,
    params: ComparisonParams,
) -> bool {
    &&& windows_positions_ok(
        ws,
        stream.book_id,
        stream.lemmas_spec().len() as int,
        params.window_size as int,
        params.stride as int,
        params.min_length as int,
    )
    &&& forall|k: int| 0 <= k < ws.len() ==> (#[trigger] ws[k]).lemma_ids@
        == stream.lemmas_spec().subrange(ws[k].global_start as int, ws[k].global_end as int)
        && ws[k].root_ids@ == crate::align::zero_seq((ws[k].global_end - ws[k].global_start) as nat)
    &&& forall|k: int| 0 <= k < ws.len() ==> resolves_lemma(
        stream.pages@,
        (#[trigger] ws[k]).global_start as int,
        ws[k].start_page,
        ws[k].start_offset,
    ) && resolves_lemma(stream.pages@, ws[k].global_end - 1, ws[k].end_page, ws[k].end_offset)
}

/// The same for the token-stream windower, whose windows carry the
/// root ids of their span.
pub open spec fn token_stream_windows(
    ws: Seq<Window>,
    stream: BookTokenStream,
    params: ComparisonParams,
) -> bool {
    &&& windows_positions_ok(
        ws,
        stream.book_id,
        stream.lemmas_spec().len() as int,
        params.window_size as int,
        params.stride as int,
        params.min_length as int,
    )
    &&& forall|k: int| 0 <= k < ws.len() ==> (#[trigger] ws[k]).lemma_ids@
        == stream.lemmas_spec().subrange(ws[k].global_start as int, ws[k].global_end as int)
        && ws[k].root_ids@ == stream.roots_spec().subrange(
        ws[k].global_start as int,
        ws[k].global_end as int,
    )
    &&& forall|k: int| 0 <= k < ws.len() ==> resolves_tokens(
        stream.pages@,
        (#[trigger] ws[k]).global_start as int,
        ws[k].start_page,
        ws[k].start_offset,
    ) && resolves_tokens(stream.pages@, ws[k].global_end - 1, ws[k].end_page, ws[k].end_offset)
}

/// Generate overlapping windows from a book's lemma stream. Windows
/// carry copies of the lemma ids they span and all-zero root ids.
#[verifier::loop_isolation(false)]
#[verifier::rlimit(60)]
pub fn generate_windows(stream: &BookLemmaStream, params: &ComparisonParams) -> (r: Vec<Window>)
    requires
        stream.wf(),
        params.stride >= 1,
        params.window_size >= 1,
        params.stride <= 0x4000_0000,
        params.window_size <= 0x4000_0000,
        stream.total_tokens < 0x4000_0000,
    ensures
        windows_positions_ok(
            r@,
            stream.book_id,
            stream.lemmas_spec().len() as int,
            params.window_size as int,
            params.stride as int,
            params.min_length as int,
        ),
        forall|k: int| 0 <= k < r@.len() ==> (#[trigger] r@[k]).lemma_ids@
            == stream.lemmas_spec().subrange(
            r@[k].global_start as int,
            r@[k].global_end as int,
        ) && r@[k].root_ids@ == crate::align::zero_seq(
            (r@[k].global_end - r@[k].global_start) as nat,
        ),
        forall|k: int| 0 <= k < r@.len() ==> resolves_lemma(
            stream.pages@,
            (#[trigger] r@[k]).global_start as int,
            r@[k].start_page,
            r@[k].start_offset,
        ) && resolves_lemma(
            stream.pages@,
            r@[k].global_end - 1,
            r@[k].end_page,
            r@[k].end_offset,
        ),
        lemma_stream_windows(r@, *stream, *params),
{
    let ghost len = stream.lemmas_spec().len() as int;
    let ghost ws = params.window_size as int;
    let ghost stride_g = params.stride as int;
    let flat_lemmas = stream.flat_lemmas();
    let mut windows: Vec<Window> = Vec::new();

    if flat_lemmas.len() == 0 {
        return windows;
    }

    let page_offsets = build_page_offsets(stream);

    if flat_lemmas.len() < params.window_size {
        // Book shorter than a window: one window spanning the whole
        // stream, provided it reaches min_length.
        if flat_lemmas.len() >= params.min_length {
            let (start_page, start_offset) = find_page_and_offset(&page_offsets, stream, 0);
            let (end_page, end_offset) = find_page_and_offset(
                &page_offsets,
                stream,
                flat_lemmas.len() - 1,
            );
            let total = flat_lemmas.len();
            let lemma_ids = copy_range(&flat_lemmas, 0, total);
            let root_ids = zero_vec(total);
            proof {
                assert(flat_lemmas@.subrange(0, len) =~= flat_lemmas@);
            }
            windows.push(
                Window {
                    book_id: stream.book_id,
                    window_idx: 0,
                    global_start: 0,
                    global_end: total,
                    start_page,
                    start_offset,
                    end_page,
                    end_offset,
                    lemma_ids,
                    root_ids,
                },
            );
        }
        return windows;
    }

    let mut window_idx: u32 = 0;
    let mut start: usize = 0;

    while start <= flat_lemmas.len() - params.window_size
        invariant
            start == window_idx * stride_g,
            window_idx == windows@.len(),
            window_idx <= len,
            ws <= len,
            window_idx >= 1 ==> (window_idx - 1) * stride_g <= len - ws,
            forall|k: int| 0 <= k < windows@.len() ==> {
                &&& (#[trigger] windows@[k]).book_id == stream.book_id
                &&& windows@[k].window_idx == k
                &&& windows@[k].global_start == k * stride_g
                &&& windows@[k].global_end == k * stride_g + ws
                &&& windows@[k].wf()
                &&& windows@[k].lemma_ids@ == stream.lemmas_spec().subrange(
                    windows@[k].global_start as int,
                    windows@[k].global_end as int,
                )
                &&& windows@[k].root_ids@ == crate::align::zero_seq(ws as nat)
                &&& resolves_lemma(
                    stream.pages@,
                    windows@[k].global_start as int,
                    windows@[k].start_page,
                    windows@[k].start_offset,
                )
                &&& resolves_lemma(
                    stream.pages@,
                    windows@[k].global_end - 1,
                    windows@[k].end_page,
                    windows@[k].end_offset,
                )
            },
        decreases len + stride_g - start,
    {
        let end = start + params.window_size;
        let (start_page, start_offset) = find_page_and_offset(&page_offsets, stream, start);
        let (end_page, end_offset) = find_page_and_offset(&page_offsets, stream, end - 1);
        let lemma_ids = copy_range(&flat_lemmas, start, end);
        let root_ids = zero_vec(params.window_size);
        windows.push(
            Window {
                book_id: stream.book_id,
                window_idx,
                global_start: start,
                global_end: end,
                start_page,
                start_offset,
                end_page,
                end_offset,
                lemma_ids,
                root_ids,
            },
        );
        proof {
            assert((window_idx + 1) * stride_g == window_idx * stride_g + stride_g)
                by (nonlinear_arith);
            assert(window_idx <= window_idx * stride_g) by (nonlinear_arith)
                requires stride_g >= 1, window_idx >= 0;
        }
        window_idx = window_idx + 1;
        start = start + params.stride;
    }

    proof {
        let k = window_idx as int;
        assert(k >= 1);
        assert(len - ws == (k - 1) * stride_g + (len - ws - (k - 1) * stride_g));
        assert((k - 1) * stride_g + stride_g == k * stride_g) by (nonlinear_arith);
        assert(0 <= len - ws - (k - 1) * stride_g < stride_g);
        lemma_fundamental_div_mod_converse(
            len - ws,
            stride_g,
            k - 1,
            len - ws - (k - 1) * stride_g,
        );
        assert(windows@.len() == spec_full_count(len, ws, stride_g));
    }

    // Trailing partial window when the tail reaches min_length.
    if start < flat_lemmas.len() && flat_lemmas.len() - start >= params.min_length {
        let (start_page, start_offset) = find_page_and_offset(&page_offsets, stream, start);
        let (end_page, end_offset) = find_page_and_offset(
            &page_offsets,
            stream,
            flat_lemmas.len() - 1,
        );
        let total = flat_lemmas.len();
        let lemma_ids = copy_range(&flat_lemmas, start, total);
        let root_ids = zero_vec(total - start);
        windows.push(
            Window {
                book_id: stream.book_id,
                window_idx,
                global_start: start,
                global_end: total,
                start_page,
                start_offset,
                end_page,
                end_offset,
                lemma_ids,
                root_ids,
            },
        );
    }

    windows
}

/// Generate overlapping windows from a book's token stream, carrying
/// both lemma and root ids.
#[verifier::loop_isolation(false)]
#[verifier::rlimit(60)]
pub fn generate_windows_with_roots(stream: &BookTokenStream, params: &ComparisonParams) -> (r: Vec<
    Window,
>)
    requires
        stream.wf(),
        params.stride >= 1,
        params.window_size >= 1,
        params.stride <= 0x4000_0000,
        params.window_size <= 0x4000_0000,
        stream.total_tokens < 0x4000_0000,
    ensures
        windows_positions_ok(
            r@,
            stream.book_id,
            stream.lemmas_spec().len() as int,
            params.window_size as int,
            params.stride as int,
            params.min_length as int,
        ),
        forall|k: int| 0 <= k < r@.len() ==> (#[trigger] r@[k]).lemma_ids@
            == stream.lemmas_spec().subrange(
            r@[k].global_start as int,
            r@[k].global_end as int,
        ) && r@[k].root_ids@ == stream.roots_spec().subrange(
            r@[k].global_start as int,
            r@[k].global_end as int,
        ),
        forall|k: int| 0 <= k < r@.len() ==> resolves_tokens(
            stream.pages@,
            (#[trigger] r@[k]).global_start as int,
            r@[k].start_page,
            r@[k].start_offset,
        ) && resolves_tokens(
            stream.pages@,
            r@[k].global_end - 1,
            r@[k].end_page,
            r@[k].end_offset,
        ),
        token_stream_windows(r@, *stream, *params),
{
    let ghost len = stream.lemmas_spec().len() as int;
    let ghost ws = params.window_size as int;
    let ghost stride_g = params.stride as int;
    let flat_lemmas = stream.flat_lemma_ids();
    let flat_roots = stream.flat_root_ids();
    proof {
        crate::models::lemma_parallel_stream_lens(stream.pages@);
    }
    let mut windows: Vec<Window> = Vec::new();

    if flat_lemmas.len() == 0 {
        return windows;
    }

    let page_offsets = build_page_offsets_from_tokens(stream);

    if flat_lemmas.len() < params.window_size {
        if flat_lemmas.len() >= params.min_length {
            let (start_page, start_offset) = find_page_and_offset_tokens(&page_offsets, stream, 0);
            let (end_page, end_offset) = find_page_and_offset_tokens(
                &page_offsets,
                stream,
                flat_lemmas.len() - 1,
            );
            let total = flat_lemmas.len();
            let lemma_ids = copy_range(&flat_lemmas, 0, total);
            let root_ids = copy_range(&flat_roots, 0, total);
            proof {
                assert(flat_lemmas@.subrange(0, len) =~= flat_lemmas@);
                assert(flat_roots@.subrange(0, len) =~= flat_roots@);
            }
            windows.push(
                Window {
                    book_id: stream.book_id,
                    window_idx: 0,
                    global_start: 0,
                    global_end: total,
                    start_page,
                    start_offset,
                    end_page,
                    end_offset,
                    lemma_ids,
                    root_ids,
                },
            );
        }
        return windows;
    }

    let mut window_idx: u32 = 0;
    let mut start: usize = 0;

    while start <= flat_lemmas.len() - params.window_size
        invariant
            start == window_idx * stride_g,
            window_idx == windows@.len(),
            window_idx <= len,
            ws <= len,
            window_idx >= 1 ==> (window_idx - 1) * stride_g <= len - ws,
            forall|k: int| 0 <= k < windows@.len() ==> {
                &&& (#[trigger] windows@[k]).book_id == stream.book_id
                &&& windows@[k].window_idx == k
                &&& windows@[k].global_start == k * stride_g
                &&& windows@[k].global_end == k * stride_g + ws
                &&& windows@[k].wf()
                &&& windows@[k].lemma_ids@ == stream.lemmas_spec().subrange(
                    windows@[k].global_start as int,
                    windows@[k].global_end as int,
                )
                &&& windows@[k].root_ids@ == stream.roots_spec().subrange(
                    windows@[k].global_start as int,
                    windows@[k].global_end as int,
                )
                &&& resolves_tokens(
                    stream.pages@,
                    windows@[k].global_start as int,
                    windows@[k].start_page,
                    windows@[k].start_offset,
                )
                &&& resolves_tokens(
                    stream.pages@,
                    windows@[k].global_end - 1,
                    windows@[k].end_page,
                    windows@[k].end_offset,
                )
            },
        decreases len + stride_g - start,
    {
        let end = start + params.window_size;
        let (start_page, start_offset) = find_page_and_offset_tokens(&page_offsets, stream, start);
        let (end_page, end_offset) = find_page_and_offset_tokens(&page_offsets, stream, end - 1);
        let lemma_ids = copy_range(&flat_lemmas, start, end);
        let root_ids = copy_range(&flat_roots, start, end);
        windows.push(
            Window {
                book_id: stream.book_id,
                window_idx,
                global_start: start,
                global_end: end,
                start_page,
                start_offset,
                end_page,
                end_offset,
                lemma_ids,
                root_ids,
            },
        );
        proof {
            assert((window_idx + 1) * stride_g == window_idx * stride_g + stride_g)
                by (nonlinear_arith);
            assert(window_idx <= window_idx * stride_g) by (nonlinear_arith)
                requires stride_g >= 1, window_idx >= 0;
        }
        window_idx = window_idx + 1;
        start = start + params.stride;
    }

    proof {
        let k = window_idx as int;
        assert(k >= 1);
        assert(len - ws == (k - 1) * stride_g + (len - ws - (k - 1) * stride_g));
        assert((k - 1) * stride_g + stride_g == k * stride_g) by (nonlinear_arith);
        assert(0 <= len - ws - (k - 1) * stride_g < stride_g);
        lemma_fundamental_div_mod_converse(
            len - ws,
            stride_g,
            k - 1,
            len - ws - (k - 1) * stride_g,
        );
        assert(windows@.len() == spec_full_count(len, ws, stride_g));
    }

    if start < flat_lemmas.len() && flat_lemmas.len() - start >= params.min_length {
        let (start_page, start_offset) = find_page_and_offset_tokens(&page_offsets, stream, start);
        let (end_page, end_offset) = find_page_and_offset_tokens(
            &page_offsets,
            stream,
            flat_lemmas.len() - 1,
        );
        let total = flat_lemmas.len();
        let lemma_ids = copy_range(&flat_lemmas, start, total);
        let root_ids = copy_range(&flat_roots, start, total);
        windows.push(
            Window {
                book_id: stream.book_id,
                window_idx,
                global_start: start,
                global_end: total,
                start_page,
                start_offset,
                end_page,
                end_offset,
                lemma_ids,
                root_ids,
            },
        );
    }

    windows
}

/// Number of windows the generator will emit for a stream length.
pub fn calculate_window_count(total_tokens: usize, params: &ComparisonParams) -> (r: usize)
    requires
        params.stride >= 1,
        params.window_size >= 1,
        params.stride <= 0x4000_0000,
        total_tokens < 0x4000_0000,
    ensures
        r == spec_window_count(
            total_tokens as int,
            params.window_size as int,
            params.stride as int,
            params.min_length as int,
        ),
{
    if total_tokens == 0 {
        return 0;
    }
    if total_tokens < params.window_size {
        if total_tokens >= params.min_length {
            return 1;
        }
        return 0;
    }
    proof {
        vstd::arithmetic::div_mod::lemma_div_pos_is_pos(
            (total_tokens - params.window_size) as int,
            params.stride as int,
        );
        vstd::arithmetic::div_mod::lemma_div_is_ordered_by_denominator(
            (total_tokens - params.window_size) as int,
            1,
            params.stride as int,
        );
        vstd::arithmetic::div_mod::lemma_div_basics((total_tokens - params.window_size) as int);
    }
    let full = (total_tokens - params.window_size) / params.stride + 1;
    proof {
        assert((full as int) * (params.stride as int) < 0x8000_0000_0000_0000)
            by (nonlinear_arith)
            requires 0 <= (full as int) < 0x8000_0000, 0 <= (params.stride as int) <= 0x4000_0000;
    }
    let rem_start = full as u64 * params.stride as u64;
    if rem_start < total_tokens as u64 && total_tokens as u64 - rem_start
        >= params.min_length as u64 {
        full + 1
    } else {
        full
    }
}

/// Every window's span is within the stream and at most one window
/// long.
pub proof fn lemma_window_spans(len: int, ws: int, stride: int, min_len: int, k: int)
    requires
        1 <= stride,
        1 <= ws,
        0 <= len,
        0 <= k < spec_window_count(len, ws, stride, min_len),
    ensures
        0 <= spec_window_start(len, ws, stride, k),
        spec_window_start(len, ws, stride, k) <= spec_window_end(len, ws, stride, k),
        spec_window_end(len, ws, stride, k) - spec_window_start(len, ws, stride, k) <= ws,
        spec_window_end(len, ws, stride, k) <= len,
{
    if len < ws {
    } else {
        let q = (len - ws) / stride;
        let full = q + 1;
        vstd::arithmetic::div_mod::lemma_fundamental_div_mod(len - ws, stride);
        vstd::arithmetic::div_mod::lemma_mod_bound(len - ws, stride);
        vstd::arithmetic::div_mod::lemma_div_pos_is_pos(len - ws, stride);
        vstd::arithmetic::mul::lemma_mul_nonnegative(k, stride);
        if k < full {
            vstd::arithmetic::mul::lemma_mul_inequality(k, q, stride);
        } else {
            assert(k == full);
            assert(full * stride == q * stride + stride) by (nonlinear_arith)
                requires full == q + 1;
        }
    }
}

/// A resolved intra-page offset is bounded by the position itself.
pub proof fn lemma_resolves_offset_bound(
    pages: Seq<PageLemmas>,
    pos: int,
    page: (u32, u32),
    off: u32,
)
    requires
        resolves_lemma(pages, pos, page, off),
        0 <= pos < 0x4000_0000,
    ensures
        off < 0x4000_0000,
{
    let k = choose|k: int| 0 <= k < pages.len() && lemma_stream_of(pages.take(k)).len() <= pos
        < lemma_stream_of(pages.take(k + 1)).len() && page == ((#[trigger] pages[k]).part_index,
    pages[k].page_id) && off == (pos - lemma_stream_of(pages.take(k)).len()) as u32;
    assert(off == (pos - lemma_stream_of(pages.take(k)).len()) as u32);
}

/// A resolved intra-page offset is bounded by the position itself.
pub proof fn lemma_resolves_offset_bound_tokens(
    pages: Seq<PageTokens>,
    pos: int,
    page: (u32, u32),
    off: u32,
)
    requires
        resolves_tokens(pages, pos, page, off),
        0 <= pos < 0x4000_0000,
    ensures
        off < 0x4000_0000,
{
    let k = choose|k: int| 0 <= k < pages.len() && lemma_stream_of_tokens(pages.take(k)).len()
        <= pos < lemma_stream_of_tokens(pages.take(k + 1)).len() && page == ((
    #[trigger] pages[k]).part_index, pages[k].page_id) && off == (pos - lemma_stream_of_tokens(
        pages.take(k),
    ).len()) as u32;
    assert(off == (pos - lemma_stream_of_tokens(pages.take(k)).len()) as u32);
}

/// Windowing is a total cover: with stride at most the window size,
/// every position up to len - ws lies inside some full window.
pub proof fn lemma_windowing_total_cover(
    windows: Seq<Window>,
    book_id: u32,
    len: int,
    ws: int,
    stride: int,
    min_len: int,
    p: int,
)
    requires
        windows_positions_ok(windows, book_id, len, ws, stride, min_len),
        1 <= stride <= ws <= len,
        0 <= p < len - ws + 1,
    ensures
        exists|k: int| 0 <= k < windows.len() && (#[trigger] windows[k]).global_end
            - windows[k].global_start == ws && windows[k].global_start <= p
            < windows[k].global_end,
{
    let k = p / stride;
    vstd::arithmetic::div_mod::lemma_fundamental_div_mod(p, stride);
    vstd::arithmetic::div_mod::lemma_mod_bound(p, stride);
    assert(k * stride <= p < k * stride + stride);
    vstd::arithmetic::div_mod::lemma_div_is_ordered(p, len - ws, stride);
    assert(k <= (len - ws) / stride);
    assert(k < spec_full_count(len, ws, stride));
    assert(spec_window_count(len, ws, stride, min_len) >= spec_full_count(len, ws, stride));
    assert(windows[k].global_start == k * stride && windows[k].global_end == k * stride + ws);
}

} // verus!