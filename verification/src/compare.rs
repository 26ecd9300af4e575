//! Pairwise comparison orchestration: windowing, candidate filtering,
//! alignment, edge building, merging, metric filtering, and summary.
//!
//! The pipeline here is sequential and its result is pinned to a
//! specification function of the window sequences and the parameters
//! alone, so identical inputs give identical edge sets however the
//! caller schedules the per-pair alignments.

use vstd::prelude::*;

use crate::align::{
    accepted_pairs, align_accepted, align_sequences, align_sequences_weighted,
    alignment_matches_model, count_pairs, lemma_match_pred, lemma_trace_pairs_sorted, max2,
    mk_model, root_only_pred, substitution_pred, trace_gaps, weight_sum, weights_wf, AlignModel,
};
use crate::filter::find_candidate_pairs;
use crate::merge::{edge_wf, edges_wf, merge_overlapping_edges, spec_merge_overlapping};
use crate::models::{
    Alignment, BookLemmaStream, BookMetadata, BookTokenStream, ComparisonParams, ComparisonResult,
    ComparisonSummary, ReuseEdge, Window,
};
use crate::window::{generate_windows, generate_windows_with_roots};

verus! {

/// Errors surfaced to the comparison driver. Storage and metadata
/// failures carry the underlying message as text.
#[derive(Debug)]
pub enum DbError {
    /// Unreachable or corrupt persistent store.
    Sqlite(String),
    /// A read failed below the store.
    Io(String),
    /// The metadata sidecar cannot be read.
    Excel(String),
    /// The metadata sidecar cannot be parsed.
    ExcelXlsx(String),
    /// The requested book id has no pages.
    BookNotFound(u32),
    /// A page blob whose byte length is not a multiple of 4.
    InvalidTokenBlob,
}

impl Default for ReuseEdge {
    /// The all-zero edge.
    fn default() -> (r: Self)
        ensures
            r.id == 0,
            r.source_book_id == 0 && r.target_book_id == 0,
            r.source_start_page == (0u32, 0u32) && r.source_end_page == (0u32, 0u32),
            r.target_start_page == (0u32, 0u32) && r.target_end_page == (0u32, 0u32),
            r.source_start_offset == 0 && r.source_end_offset == 0,
            r.target_start_offset == 0 && r.target_end_offset == 0,
            r.source_global_start == 0 && r.source_global_end == 0,
            r.target_global_start == 0 && r.target_global_end == 0,
            r.aligned_length == 0 && r.lemma_matches == 0 && r.substitutions == 0,
            r.root_only_matches == 0 && r.gaps == 0,
            r.core_similarity == 0 && r.span_coverage == 0 && r.content_weight == 0,
            r.lemma_similarity == 0 && r.combined_similarity == 0,
            r.weighted_similarity == 0 && r.avg_match_weight == 0,
            edge_wf(r),
    {
        ReuseEdge {
            id: 0,
            source_book_id: 0,
            source_start_page: (0, 0),
            source_start_offset: 0,
            source_end_page: (0, 0),
            source_end_offset: 0,
            source_global_start: 0,
            source_global_end: 0,
            target_book_id: 0,
            target_start_page: (0, 0),
            target_start_offset: 0,
            target_end_page: (0, 0),
            target_end_offset: 0,
            target_global_start: 0,
            target_global_end: 0,
            aligned_length: 0,
            lemma_matches: 0,
            substitutions: 0,
            root_only_matches: 0,
            gaps: 0,
            core_similarity: 0,
            span_coverage: 0,
            content_weight: 0,
            lemma_similarity: 0,
            combined_similarity: 0,
            weighted_similarity: 0,
            avg_match_weight: 0,
        }
    }
}

/// Whether an edge passes every metric threshold that is set.
pub open spec fn passes_filters(e: ReuseEdge, params: ComparisonParams) -> bool {
    &&& (params.min_weighted_similarity matches Some(m) ==> e.weighted_similarity >= m)
    &&& (params.min_core_similarity matches Some(m) ==> e.core_similarity >= m)
    &&& (params.min_span_coverage matches Some(m) ==> e.span_coverage >= m)
    &&& (params.min_content_weight matches Some(m) ==> e.content_weight >= m)
}

/// The edges that pass the metric filters, in order.
pub open spec fn spec_filter_edges(s: Seq<ReuseEdge>, params: ComparisonParams) -> Seq<ReuseEdge>
    decreases s.len(),
{
    if s.len() == 0 {
        Seq::empty()
    } else {
        let p = spec_filter_edges(s.drop_last(), params);
        if passes_filters(s.last(), params) {
            p.push(s.last())
        } else {
            p
        }
    }
}

/// Apply the three-metric thresholds (and the weighted-similarity
/// threshold) to a merged edge list.
#[verifier::loop_isolation(false)]
pub fn filter_edges_by_params(edges: &Vec<ReuseEdge>, params: &ComparisonParams) -> (r: Vec<
    ReuseEdge,
>)
    ensures
        r@ == spec_filter_edges(edges@, *params),
{
    let mut r: Vec<ReuseEdge> = Vec::new();
    let mut k: usize = 0;
    while k < edges.len()
        invariant
            k <= edges@.len(),
            r@ == spec_filter_edges(edges@.take(k as int), *params),
        decreases edges@.len() - k,
    {
        proof {
            assert(edges@.take(k + 1).drop_last() =~= edges@.take(k as int));
            assert(edges@.take(k + 1).last() == edges@[k as int]);
        }
        let e = &edges[k];
        let mut keep = true;
        match params.min_weighted_similarity {
            Some(m) => {
                if e.weighted_similarity < m {
                    keep = false;
                }
            },
            None => {},
        }
        match params.min_core_similarity {
            Some(m) => {
                if e.core_similarity < m {
                    keep = false;
                }
            },
            None => {},
        }
        match params.min_span_coverage {
            Some(m) => {
                if e.span_coverage < m {
                    keep = false;
                }
            },
            None => {},
        }
        match params.min_content_weight {
            Some(m) => {
                if e.content_weight < m {
                    keep = false;
                }
            },
            None => {},
        }
        if keep {
            r.push(edges[k].clone());
        }
        k = k + 1;
    }
    proof {
        assert(edges@.take(edges@.len() as int) =~= edges@);
    }
    r
}

/// Every range is ordered and its end stays below 2^30.
pub open spec fn ranges_wf(s: Seq<(usize, usize)>) -> bool {
    forall|t: int| 0 <= t < s.len() ==> (#[trigger] s[t]).0 <= s[t].1 < 0x4000_0000
}

/// Merging of a sorted range list: each range extends the last merged
/// one when it starts inside it, else opens a new one.
pub open spec fn spec_merge_ranges(s: Seq<(usize, usize)>) -> Seq<(usize, usize)>
    decreases s.len(),
{
    if s.len() == 0 {
        Seq::empty()
    } else {
        let p = spec_merge_ranges(s.drop_last());
        let r = s.last();
        if p.len() > 0 && r.0 <= p.last().1 {
            p.update(p.len() - 1, (p.last().0, max_u(p.last().1, r.1)))
        } else {
            p.push(r)
        }
    }
}

pub open spec fn max_u(a: usize, b: usize) -> usize {
    if a >= b {
        a
    } else {
        b
    }
}

/// Merge overlapping ranges of a start-sorted list into disjoint ones.
#[verifier::loop_isolation(false)]
pub fn merge_ranges(ranges: &Vec<(usize, usize)>) -> (r: Vec<(usize, usize)>)
    ensures
        r@ == spec_merge_ranges(ranges@),
        ranges_wf(ranges@) ==> ranges_wf(r@),
        r@.len() <= ranges@.len(),
{
    let mut r: Vec<(usize, usize)> = Vec::new();
    let mut k: usize = 0;
    while k < ranges.len()
        invariant
            k <= ranges@.len(),
            r@ == spec_merge_ranges(ranges@.take(k as int)),
            ranges_wf(ranges@) ==> ranges_wf(r@),
            r@.len() <= k,
        decreases ranges@.len() - k,
    {
        proof {
            assert(ranges@.take(k + 1).drop_last() =~= ranges@.take(k as int));
            assert(ranges@.take(k + 1).last() == ranges@[k as int]);
        }
        let (start, end) = ranges[k];
        let mut extend = false;
        if r.len() > 0 {
            let last = r[r.len() - 1];
            if start <= last.1 {
                extend = true;
            }
        }
        if extend {
            let li = r.len() - 1;
            let last = r[li];
            let ghost prev = r@;
            let new_end = if last.1 >= end {
                last.1
            } else {
                end
            };
            r.set(li, (last.0, new_end));
            proof {
                assert(r@ =~= prev.update(prev.len() - 1, (prev.last().0, max_u(
                    prev.last().1,
                    ranges@[k as int].1,
                ))));
            }
        } else {
            r.push((start, end));
        }
        k = k + 1;
    }
    proof {
        assert(ranges@.take(ranges@.len() as int) =~= ranges@);
    }
    r
}

/// Ranges of the edges that touch a book: the source range where the
/// book is the source, else the target range where it is the target.
pub open spec fn spec_book_ranges(s: Seq<ReuseEdge>, book_id: u32) -> Seq<(usize, usize)>
    decreases s.len(),
{
    if s.len() == 0 {
        Seq::empty()
    } else {
        let p = spec_book_ranges(s.drop_last(), book_id);
        let e = s.last();
        if e.source_book_id == book_id {
            p.push((e.source_global_start, e.source_global_end))
        } else if e.target_book_id == book_id {
            p.push((e.target_global_start, e.target_global_end))
        } else {
            p
        }
    }
}

/// Range order by start position.
pub open spec fn range_le() -> spec_fn((usize, usize), (usize, usize)) -> bool {
    |a: (usize, usize), b: (usize, usize)| a.0 <= b.0
}

/// Stable insertion of a range into a list.
pub open spec fn spec_insert_range(s: Seq<(usize, usize)>, x: (usize, usize)) -> Seq<(usize, usize)>
    decreases s.len(),
{
    if s.len() == 0 {
        seq![x]
    } else if range_le()(s[0], x) {
        seq![s[0]] + spec_insert_range(s.skip(1), x)
    } else {
        seq![x] + s
    }
}

/// Stable insertion sort of ranges by start position.
pub open spec fn spec_sort_ranges(s: Seq<(usize, usize)>) -> Seq<(usize, usize)>
    decreases s.len(),
{
    if s.len() == 0 {
        Seq::empty()
    } else {
        spec_insert_range(spec_sort_ranges(s.drop_last()), s.last())
    }
}

pub proof fn lemma_insert_range_at(s: Seq<(usize, usize)>, x: (usize, usize), idx: int)
    requires
        0 <= idx <= s.len(),
        forall|t: int| 0 <= t < idx ==> (#[trigger] s[t]).0 <= x.0,
        idx < s.len() ==> !(s[idx].0 <= x.0),
    ensures
        spec_insert_range(s, x) == s.take(idx) + seq![x] + s.skip(idx),
    decreases s.len(),
{
    if s.len() == 0 {
        assert(spec_insert_range(s, x) =~= s.take(idx) + seq![x] + s.skip(idx));
    } else if idx == 0 {
        assert(spec_insert_range(s, x) =~= s.take(0) + seq![x] + s.skip(0));
    } else {
        lemma_insert_range_at(s.skip(1), x, idx - 1);
        assert(s.skip(1).take(idx - 1) =~= s.take(idx).skip(1));
        assert(s.skip(1).skip(idx - 1) =~= s.skip(idx));
        assert(seq![s[0]] + (s.skip(1).take(idx - 1) + seq![x] + s.skip(1).skip(idx - 1)) =~= s.take(
            idx,
        ) + seq![x] + s.skip(idx));
    }
}

/// Stable insertion sort of ranges by start position.
#[verifier::loop_isolation(false)]
fn sort_ranges(ranges: Vec<(usize, usize)>) -> (r: Vec<(usize, usize)>)
    ensures
        r@ == spec_sort_ranges(ranges@),
        ranges_wf(ranges@) ==> ranges_wf(r@),
        r@.len() == ranges@.len(),
{
    let mut r: Vec<(usize, usize)> = Vec::new();
    let mut k: usize = 0;
    while k < ranges.len()
        invariant
            k <= ranges@.len(),
            r@ == spec_sort_ranges(ranges@.take(k as int)),
            ranges_wf(ranges@) ==> ranges_wf(r@),
            r@.len() == k,
        decreases ranges@.len() - k,
    {
        let x = ranges[k];
        let mut idx: usize = 0;
        let mut scanning = true;
        while scanning
            invariant
                idx <= r@.len(),
                forall|t: int| 0 <= t < idx ==> (#[trigger] r@[t]).0 <= x.0,
                !scanning ==> (idx == r@.len() || !(r@[idx as int].0 <= x.0)),
            decreases r@.len() - idx + (if scanning {
                1int
            } else {
                0int
            }),
        {
            if idx < r.len() {
                if r[idx].0 <= x.0 {
                    idx = idx + 1;
                } else {
                    scanning = false;
                }
            } else {
                scanning = false;
            }
        }
        let ghost prev = r@;
        proof {
            lemma_insert_range_at(prev, x, idx as int);
            assert(ranges@.take(k + 1).drop_last() =~= ranges@.take(k as int));
            assert(ranges@.take(k + 1).last() == ranges@[k as int]);
        }
        r.insert(idx, x);
        proof {
            assert(r@ =~= prev.take(idx as int) + seq![x] + prev.skip(idx as int));
        }
        k = k + 1;
    }
    proof {
        assert(ranges@.take(ranges@.len() as int) =~= ranges@);
    }
    r
}

/// Sum of the lengths of a range list.
pub open spec fn spec_ranges_total(s: Seq<(usize, usize)>) -> int
    decreases s.len(),
{
    if s.len() == 0 {
        0
    } else {
        spec_ranges_total(s.drop_last()) + (if s.last().1 >= s.last().0 {
            s.last().1 - s.last().0
        } else {
            0int
        })
    }
}

/// Coverage of a book by a set of edges, per-mille of its token total:
/// the edges' ranges on that book are sorted, merged into disjoint
/// ranges, and summed.
pub open spec fn spec_coverage(s: Seq<ReuseEdge>, book_id: u32, total_tokens: int) -> int {
    if total_tokens == 0 {
        0
    } else {
        let covered = spec_ranges_total(
            spec_merge_ranges(spec_sort_ranges(spec_book_ranges(s, book_id))),
        );
        covered * 1000 / total_tokens
    }
}

/// Calculate the per-mille fraction of a book covered by reuse edges.
#[verifier::loop_isolation(false)]
pub fn calculate_coverage(edges: &Vec<ReuseEdge>, book_id: u32, total_tokens: usize) -> (r: u32)
    requires
        edges_wf(edges@),
    ensures
        r == spec_coverage(edges@, book_id, total_tokens as int) as u32,
{
    if total_tokens == 0 {
        return 0;
    }
    let mut covered_ranges: Vec<(usize, usize)> = Vec::new();
    let mut k: usize = 0;
    while k < edges.len()
        invariant
            k <= edges@.len(),
            covered_ranges@ == spec_book_ranges(edges@.take(k as int), book_id),
            forall|t: int| 0 <= t < covered_ranges@.len() ==> (#[trigger] covered_ranges@[t]).0
                <= covered_ranges@[t].1 < 0x4000_0000,
            covered_ranges@.len() <= k,
        decreases edges@.len() - k,
    {
        proof {
            assert(edges@.take(k + 1).drop_last() =~= edges@.take(k as int));
            assert(edges@.take(k + 1).last() == edges@[k as int]);
            assert(edge_wf(edges@[k as int]));
        }
        let e = &edges[k];
        if e.source_book_id == book_id {
            covered_ranges.push((e.source_global_start, e.source_global_end));
        } else if e.target_book_id == book_id {
            covered_ranges.push((e.target_global_start, e.target_global_end));
        }
        k = k + 1;
    }
    proof {
        assert(edges@.take(edges@.len() as int) =~= edges@);
    }
    proof {
        assert(ranges_wf(covered_ranges@));
    }
    let sorted = sort_ranges(covered_ranges);
    let merged = merge_ranges(&sorted);
    let ghost mv = merged@;
    let mut covered: u128 = 0;
    let mut t: usize = 0;
    while t < merged.len()
        invariant
            t <= mv.len(),
            ranges_wf(mv),
            covered == spec_ranges_total(mv.take(t as int)),
            covered <= 0x4000_0000 * (t as int),
        decreases mv.len() - t,
    {
        proof {
            assert(mv.take(t + 1).drop_last() =~= mv.take(t as int));
            assert(mv.take(t + 1).last() == mv[t as int]);
            assert(0x4000_0000 * (t as int) + 0x4000_0000 == 0x4000_0000 * (t + 1))
                by (nonlinear_arith);
            assert(0x4000_0000 * (t as int) <= 0x4000_0000 * 0x1_0000_0000_0000_0000)
                by (nonlinear_arith)
                requires 0 <= (t as int) <= 0x1_0000_0000_0000_0000;
        }
        let (s, e) = merged[t];
        covered = covered + (e - s) as u128;
        t = t + 1;
    }
    proof {
        assert(mv.take(mv.len() as int) =~= mv);
    }
    #[verifier::truncate] ((covered * 1000 / (total_tokens as u128)) as u32)
}


/// Bounds assumed of a window handed to the edge builder: well-formed,
/// with positions and offsets below 2^30 and at most 2^15 tokens.
pub open spec fn window_bounds(w: Window) -> bool {
    &&& w.wf()
    &&& w.global_end < 0x4000_0000
    &&& w.start_offset < 0x4000_0000
    &&& w.lemma_ids@.len() < 0x8000
}

pub open spec fn windows_bounds(ws: Seq<Window>) -> bool {
    forall|i: int| 0 <= i < ws.len() ==> window_bounds(#[trigger] ws[i])
}

/// The edge built from an accepted alignment between two windows:
/// intra-window positions are shifted by the windows' global starts and
/// start offsets, and the per-mille metrics are computed from the
/// alignment counts.
pub open spec fn spec_edge_from_alignment(
    wa: Window,
    wb: Window,
    al: Alignment,
    id: u64,
) -> ReuseEdge {
    let alen = al.aligned_pairs@.len() + al.gaps;
    let lm = al.lemma_matches as int;
    let subs = al.substitutions as int;
    let rom = al.root_only_matches as int;
    let mws = al.match_weight_sum as int;
    ReuseEdge {
        id,
        source_book_id: wa.book_id,
        source_start_page: wa.start_page,
        source_start_offset: (wa.start_offset + al.start_a) as u32,
        source_end_page: wa.end_page,
        source_end_offset: (wa.start_offset + al.end_a) as u32,
        source_global_start: (wa.global_start + al.start_a) as usize,
        source_global_end: (wa.global_start + al.end_a) as usize,
        target_book_id: wb.book_id,
        target_start_page: wb.start_page,
        target_start_offset: (wb.start_offset + al.start_b) as u32,
        target_end_page: wb.end_page,
        target_end_offset: (wb.start_offset + al.end_b) as u32,
        target_global_start: (wb.global_start + al.start_b) as usize,
        target_global_end: (wb.global_start + al.end_b) as usize,
        aligned_length: alen as u32,
        lemma_matches: al.lemma_matches,
        substitutions: al.substitutions,
        root_only_matches: al.root_only_matches,
        gaps: al.gaps,
        core_similarity: (if lm + subs > 0 {
            1000 * lm / (lm + subs)
        } else {
            0int
        }) as u32,
        span_coverage: (if alen > 0 {
            1000 * (lm + subs) / (alen as int)
        } else {
            0int
        }) as u32,
        content_weight: (if lm > 0 {
            mws / lm
        } else {
            0int
        }) as u32,
        lemma_similarity: (if alen > 0 {
            1000 * lm / (alen as int)
        } else {
            0int
        }) as u32,
        combined_similarity: (if alen > 0 {
            (1000 * lm + 500 * rom) / (alen as int)
        } else {
            0int
        }) as u32,
        weighted_similarity: (if alen > 0 {
            mws / (alen as int)
        } else {
            0int
        }) as u32,
        avg_match_weight: (if lm > 0 {
            mws / lm
        } else {
            0int
        }) as u32,
    }
}

/// Numeric bounds of an alignment fed to the edge builder.
pub open spec fn alignment_bounds(al: Alignment, wa: Window, wb: Window) -> bool {
    &&& al.start_a <= al.end_a <= wa.lemma_ids@.len()
    &&& al.start_b <= al.end_b <= wb.lemma_ids@.len()
    &&& al.aligned_pairs@.len() + al.gaps <= 0x2_0000
}

/// Convert an accepted alignment between two windows into an edge with
/// absolute coordinates and the given id.
pub fn alignment_to_edge(window_a: &Window, window_b: &Window, alignment: &Alignment, id: u64) -> (
    r: ReuseEdge)
    requires
        window_bounds(*window_a),
        window_bounds(*window_b),
        alignment_bounds(*alignment, *window_a, *window_b),
    ensures
        r == spec_edge_from_alignment(*window_a, *window_b, *alignment, id),
        edge_wf(r),
{
    let alen = (alignment.aligned_pairs.len() + alignment.gaps as usize) as u64;
    let lm = alignment.lemma_matches as u64;
    let subs = alignment.substitutions as u64;
    let rom = alignment.root_only_matches as u64;
    let mws = alignment.match_weight_sum;

    let core_similarity = #[verifier::truncate] ((if lm + subs > 0 {
        1000 * lm / (lm + subs)
    } else {
        0
    }) as u32);
    let span_coverage = #[verifier::truncate] ((if alen > 0 {
        1000 * (lm + subs) / alen
    } else {
        0
    }) as u32);
    let content_weight = #[verifier::truncate] ((if lm > 0 {
        mws / lm
    } else {
        0
    }) as u32);
    let lemma_similarity = #[verifier::truncate] ((if alen > 0 {
        1000 * lm / alen
    } else {
        0
    }) as u32);
    let combined_similarity = #[verifier::truncate] ((if alen > 0 {
        (1000 * lm + 500 * rom) / alen
    } else {
        0
    }) as u32);
    let weighted_similarity = #[verifier::truncate] ((if alen > 0 {
        mws / alen
    } else {
        0
    }) as u32);

    ReuseEdge {
        id,
        source_book_id: window_a.book_id,
        source_start_page: window_a.start_page,
        source_start_offset: window_a.start_offset + alignment.start_a as u32,
        source_end_page: window_a.end_page,
        source_end_offset: window_a.start_offset + alignment.end_a as u32,
        source_global_start: window_a.global_start + alignment.start_a,
        source_global_end: window_a.global_start + alignment.end_a,
        target_book_id: window_b.book_id,
        target_start_page: window_b.start_page,
        target_start_offset: window_b.start_offset + alignment.start_b as u32,
        target_end_page: window_b.end_page,
        target_end_offset: window_b.start_offset + alignment.end_b as u32,
        target_global_start: window_b.global_start + alignment.start_b,
        target_global_end: window_b.global_start + alignment.end_b,
        aligned_length: #[verifier::truncate] (alen as u32),
        lemma_matches: alignment.lemma_matches,
        substitutions: alignment.substitutions,
        root_only_matches: alignment.root_only_matches,
        gaps: alignment.gaps,
        core_similarity,
        span_coverage,
        content_weight,
        lemma_similarity,
        combined_similarity,
        weighted_similarity,
        avg_match_weight: content_weight,
    }
}

/// The alignment model of one candidate window pair.
pub open spec fn pair_model(
    wa: Seq<Window>,
    wb: Seq<Window>,
    x: int,
    y: int,
    weights_a: Seq<u32>,
    weights_b: Seq<u32>,
    weighted: bool,
    params: ComparisonParams,
) -> AlignModel {
    mk_model(
        wa[x].lemma_ids@,
        wb[y].lemma_ids@,
        wa[x].root_ids@,
        wb[y].root_ids@,
        weights_a,
        weights_b,
        weighted,
        params,
    )
}

/// The edge of an accepted model, phrased over the model alone.
pub open spec fn spec_edge_of_model(wa: Window, wb: Window, m: AlignModel, id: u64) -> ReuseEdge {
    let pairs = accepted_pairs(m);
    let gaps = trace_gaps(m, crate::align::best(m).0 as nat, crate::align::best(m).1 as nat);
    let alen = pairs.len() + gaps;
    let lm = count_pairs(pairs, lemma_match_pred(m.la, m.lb));
    let subs = count_pairs(pairs, substitution_pred(m.la, m.lb, m.ra, m.rb));
    let rom = count_pairs(pairs, root_only_pred(m.la, m.lb, m.ra, m.rb));
    let mws = if m.weighted {
        weight_sum(m, pairs)
    } else {
        0int
    };
    let start_a = if pairs.len() > 0 {
        pairs.last().0 as int
    } else {
        0int
    };
    let start_b = if pairs.len() > 0 {
        pairs.last().1 as int
    } else {
        0int
    };
    let end_a = if pairs.len() > 0 {
        pairs[0].0 + 1
    } else {
        1int
    };
    let end_b = if pairs.len() > 0 {
        pairs[0].1 + 1
    } else {
        1int
    };
    ReuseEdge {
        id,
        source_book_id: wa.book_id,
        source_start_page: wa.start_page,
        source_start_offset: (wa.start_offset + start_a) as u32,
        source_end_page: wa.end_page,
        source_end_offset: (wa.start_offset + end_a) as u32,
        source_global_start: (wa.global_start + start_a) as usize,
        source_global_end: (wa.global_start + end_a) as usize,
        target_book_id: wb.book_id,
        target_start_page: wb.start_page,
        target_start_offset: (wb.start_offset + start_b) as u32,
        target_end_page: wb.end_page,
        target_end_offset: (wb.start_offset + end_b) as u32,
        target_global_start: (wb.global_start + start_b) as usize,
        target_global_end: (wb.global_start + end_b) as usize,
        aligned_length: alen as u32,
        lemma_matches: lm as u32,
        substitutions: subs as u32,
        root_only_matches: rom as u32,
        gaps: gaps as u32,
        core_similarity: (if lm + subs > 0 {
            1000 * lm / (lm + subs)
        } else {
            0int
        }) as u32,
        span_coverage: (if alen > 0 {
            1000 * (lm + subs) / (alen as int)
        } else {
            0int
        }) as u32,
        content_weight: (if lm > 0 {
            mws / lm
        } else {
            0int
        }) as u32,
        lemma_similarity: (if alen > 0 {
            1000 * lm / (alen as int)
        } else {
            0int
        }) as u32,
        combined_similarity: (if alen > 0 {
            (1000 * lm + 500 * rom) / (alen as int)
        } else {
            0int
        }) as u32,
        weighted_similarity: (if alen > 0 {
            mws / (alen as int)
        } else {
            0int
        }) as u32,
        avg_match_weight: (if lm > 0 {
            mws / lm
        } else {
            0int
        }) as u32,
    }
}

/// An alignment that matches a model builds the same edge as the model.
pub proof fn lemma_edge_from_model(wa: Window, wb: Window, al: Alignment, m: AlignModel, id: u64)
    requires
        alignment_matches_model(al, m),
    ensures
        spec_edge_from_alignment(wa, wb, al, id) == spec_edge_of_model(wa, wb, m, id),
{
    let pairs = accepted_pairs(m);
    assert(al.aligned_pairs@.len() == pairs.len());
    if pairs.len() > 0 {
        assert(al.aligned_pairs@[0] == pairs[pairs.len() - 1]);
    }
}

/// The raw edge list of a candidate list: one edge per accepted pair,
/// with ids assigned in emission order.
pub open spec fn spec_raw_edges(
    wa: Seq<Window>,
    wb: Seq<Window>,
    cands: Seq<(usize, usize)>,
    weights_a: Seq<u32>,
    weights_b: Seq<u32>,
    weighted: bool,
    params: ComparisonParams,
) -> Seq<ReuseEdge>
    decreases cands.len(),
{
    if cands.len() == 0 {
        Seq::empty()
    } else {
        let p = spec_raw_edges(wa, wb, cands.drop_last(), weights_a, weights_b, weighted, params);
        let x = cands.last().0 as int;
        let y = cands.last().1 as int;
        let m = pair_model(
            wa,
            wb,
            x,
            y,
            if weighted {
                weights_a
            } else {
                Seq::empty()
            },
            if weighted {
                weights_b
            } else {
                Seq::empty()
            },
            weighted,
            params,
        );
        if align_accepted(m) {
            p.push(spec_edge_of_model(wa[x], wb[y], m, p.len() as u64))
        } else {
            p
        }
    }
}

/// The full edge list of a window pair under the given parameters:
/// align every candidate pair, merge overlapping edges, then apply the
/// metric filters. A pure function of its inputs.
pub open spec fn spec_pipeline_edges(
    wa: Seq<Window>,
    wb: Seq<Window>,
    weights_a: Seq<u32>,
    weights_b: Seq<u32>,
    weighted: bool,
    params: ComparisonParams,
) -> Seq<ReuseEdge> {
    let cands = crate::filter::spec_candidates(wa, wb, params);
    let raw = spec_raw_edges(wa, wb, cands, weights_a, weights_b, weighted, params);
    spec_filter_edges(spec_merge_overlapping(raw), params)
}

/// Align every candidate window pair and build the merged, filtered
/// edge list. The result is a pure function of the windows, weights and
/// parameters, so identical inputs give identical edge sets whatever
/// order or degree of parallelism a driver might otherwise use.
#[verifier::loop_isolation(false)]
#[verifier::rlimit(60)]
pub fn compare_windows(
    windows_a: &Vec<Window>,
    windows_b: &Vec<Window>,
    weights_a: &Vec<u32>,
    weights_b: &Vec<u32>,
    weighted: bool,
    params: &ComparisonParams,
) -> (r: Vec<ReuseEdge>)
    requires
        windows_bounds(windows_a@),
        windows_bounds(windows_b@),
        params.lemma_score >= 0,
        params.root_score >= 0,
        params.mismatch_penalty <= 0,
        params.gap_penalty <= 0,
        weighted ==> weights_wf(weights_a@) && weights_wf(weights_b@),
    ensures
        r@ == spec_pipeline_edges(
            windows_a@,
            windows_b@,
            weights_a@,
            weights_b@,
            weighted,
            *params,
        ),
        edges_wf(r@),
        edges_pass_filters(r@, *params),
{
    let ghost wa = windows_a@;
    let ghost wb = windows_b@;
    let candidates = find_candidate_pairs(windows_a, windows_b, params);
    let ghost cv = candidates@;

    let mut edges: Vec<ReuseEdge> = Vec::new();
    let mut k: usize = 0;
    while k < candidates.len()
        invariant
            k <= cv.len(),
            edges@ == spec_raw_edges(wa, wb, cv.take(k as int), weights_a@, weights_b@, weighted,
            *params),
            edges_wf(edges@),
            edges@.len() <= k,
        decreases cv.len() - k,
    {
        proof {
            assert(cv.take(k + 1).drop_last() =~= cv.take(k as int));
            assert(cv.take(k + 1).last() == cv[k as int]);
        }
        let (idx_a, idx_b) = candidates[k];
        let window_a = &windows_a[idx_a];
        let window_b = &windows_b[idx_b];
        let ghost m = pair_model(
            wa,
            wb,
            idx_a as int,
            idx_b as int,
            if weighted {
                weights_a@
            } else {
                Seq::empty()
            },
            if weighted {
                weights_b@
            } else {
                Seq::empty()
            },
            weighted,
            *params,
        );
        let alignment_opt = if weighted {
            align_sequences_weighted(
                window_a.lemma_ids.as_slice(),
                window_b.lemma_ids.as_slice(),
                window_a.root_ids.as_slice(),
                window_b.root_ids.as_slice(),
                weights_a.as_slice(),
                weights_b.as_slice(),
                params,
            )
        } else {
            align_sequences(
                window_a.lemma_ids.as_slice(),
                window_b.lemma_ids.as_slice(),
                window_a.root_ids.as_slice(),
                window_b.root_ids.as_slice(),
                params,
            )
        };
        match alignment_opt {
            Some(alignment) => {
                proof {
                    assert(align_accepted(m));
                    assert(alignment_matches_model(alignment, m));
                    crate::align::lemma_best_bounds(m);
                    lemma_trace_pairs_sorted(
                        m,
                        crate::align::best(m).0 as nat,
                        crate::align::best(m).1 as nat,
                    );
                    crate::align::lemma_best_upto_cell(m, (m.la.len() * m.lb.len()) as nat);
                    assert(alignment_bounds(alignment, wa[idx_a as int], wb[idx_b as int]));
                    lemma_edge_from_model(
                        wa[idx_a as int],
                        wb[idx_b as int],
                        alignment,
                        m,
                        edges@.len() as u64,
                    );
                }
                let id = edges.len() as u64;
                let edge = alignment_to_edge(window_a, window_b, &alignment, id);
                edges.push(edge);
            },
            None => {
                proof {
                    assert(!align_accepted(m));
                }
            },
        }
        k = k + 1;
    }
    proof {
        assert(cv.take(cv.len() as int) =~= cv);
    }

    let merged = merge_overlapping_edges(edges);
    let filtered = filter_edges_by_params(&merged, params);
    proof {
        assert forall|i: int| 0 <= i < filtered@.len() implies edge_wf(#[trigger] filtered@[i])
            by {
            lemma_filter_edges_wf(merged@, *params);
        }
        lemma_filter_edges_pass(merged@, *params);
    }
    filtered
}

/// Filtered edges keep well-formedness.
pub proof fn lemma_filter_edges_wf(s: Seq<ReuseEdge>, params: ComparisonParams)
    requires
        edges_wf(s),
    ensures
        edges_wf(spec_filter_edges(s, params)),
    decreases s.len(),
{
    if s.len() > 0 {
        assert(edges_wf(s.drop_last())) by {
            assert(forall|i: int| 0 <= i < s.drop_last().len() ==> #[trigger] s.drop_last()[i]
                == s[i]);
        }
        lemma_filter_edges_wf(s.drop_last(), params);
        let p = spec_filter_edges(s.drop_last(), params);
        if passes_filters(s.last(), params) {
            assert(edge_wf(s[s.len() - 1]));
            assert(forall|i: int| 0 <= i < p.len() ==> #[trigger] p.push(s.last())[i] == p[i]);
            assert(p.push(s.last())[p.len() as int] == s.last());
        }
    }
}


/// Sum of the aligned lengths of an edge list.
pub open spec fn spec_total_aligned(s: Seq<ReuseEdge>) -> int
    decreases s.len(),
{
    if s.len() == 0 {
        0
    } else {
        spec_total_aligned(s.drop_last()) + s.last().aligned_length
    }
}

/// Sum of the per-mille lemma similarities of an edge list.
pub open spec fn spec_sum_similarity(s: Seq<ReuseEdge>) -> int
    decreases s.len(),
{
    if s.len() == 0 {
        0
    } else {
        spec_sum_similarity(s.drop_last()) + s.last().lemma_similarity
    }
}

/// Sum of the per-mille weighted similarities of an edge list.
pub open spec fn spec_sum_weighted(s: Seq<ReuseEdge>) -> int
    decreases s.len(),
{
    if s.len() == 0 {
        0
    } else {
        spec_sum_weighted(s.drop_last()) + s.last().weighted_similarity
    }
}

/// The summary of an edge list against the two books' token totals.
pub open spec fn summary_matches(
    summary: ComparisonSummary,
    edges: Seq<ReuseEdge>,
    book_a_id: u32,
    total_a: int,
    book_b_id: u32,
    total_b: int,
) -> bool {
    &&& summary.edge_count == edges.len()
    &&& summary.total_aligned_tokens == spec_total_aligned(edges) as usize
    &&& summary.book_a_coverage == spec_coverage(edges, book_a_id, total_a) as u32
    &&& summary.book_b_coverage == spec_coverage(edges, book_b_id, total_b) as u32
    &&& summary.avg_similarity == (if edges.len() == 0 {
        0int
    } else {
        spec_sum_similarity(edges) / edges.len() as int
    }) as u32
    &&& summary.avg_weighted_similarity == (if edges.len() == 0 {
        0int
    } else {
        spec_sum_weighted(edges) / edges.len() as int
    }) as u32
}

/// Build the run summary of a filtered edge list.
#[verifier::loop_isolation(false)]
fn build_summary(
    edges: &Vec<ReuseEdge>,
    book_a_id: u32,
    total_a: usize,
    book_b_id: u32,
    total_b: usize,
) -> (r: ComparisonSummary)
    requires
        edges_wf(edges@),
    ensures
        summary_matches(r, edges@, book_a_id, total_a as int, book_b_id, total_b as int),
{
    let ghost ev = edges@;
    let mut total_aligned: u128 = 0;
    let mut sum_sim: u128 = 0;
    let mut sum_weighted: u128 = 0;
    let mut k: usize = 0;
    while k < edges.len()
        invariant
            k <= ev.len(),
            total_aligned == spec_total_aligned(ev.take(k as int)),
            sum_sim == spec_sum_similarity(ev.take(k as int)),
            sum_weighted == spec_sum_weighted(ev.take(k as int)),
            total_aligned <= 0x1_0000_0000 * (k as int),
            sum_sim <= 0x1_0000_0000 * (k as int),
            sum_weighted <= 0x1_0000_0000 * (k as int),
        decreases ev.len() - k,
    {
        proof {
            assert(ev.take(k + 1).drop_last() =~= ev.take(k as int));
            assert(ev.take(k + 1).last() == ev[k as int]);
            assert(0x1_0000_0000 * (k as int) + 0x1_0000_0000 == 0x1_0000_0000 * (k + 1))
                by (nonlinear_arith);
            assert(0x1_0000_0000 * (k as int) <= 0x1_0000_0000 * 0x1_0000_0000_0000_0000)
                by (nonlinear_arith)
                requires 0 <= (k as int) <= 0x1_0000_0000_0000_0000;
        }
        let e = &edges[k];
        total_aligned = total_aligned + e.aligned_length as u128;
        sum_sim = sum_sim + e.lemma_similarity as u128;
        sum_weighted = sum_weighted + e.weighted_similarity as u128;
        k = k + 1;
    }
    proof {
        assert(ev.take(ev.len() as int) =~= ev);
    }
    let n = edges.len();
    let avg_similarity = if n == 0 {
        0
    } else {
        #[verifier::truncate] ((sum_sim / (n as u128)) as u32)
    };
    let avg_weighted_similarity = if n == 0 {
        0
    } else {
        #[verifier::truncate] ((sum_weighted / (n as u128)) as u32)
    };
    ComparisonSummary {
        edge_count: n,
        total_aligned_tokens: #[verifier::truncate] (total_aligned as usize),
        book_a_coverage: calculate_coverage(edges, book_a_id, total_a),
        book_b_coverage: calculate_coverage(edges, book_b_id, total_b),
        avg_similarity,
        avg_weighted_similarity,
    }
}

/// The parameter bounds the stream-level drivers assume: positive
/// windowing sizes that fit the aligner, and sign-correct scores.
pub open spec fn driver_params_ok(params: ComparisonParams) -> bool {
    &&& 1 <= params.stride <= 0x4000_0000
    &&& 1 <= params.window_size < 0x8000
    &&& params.lemma_score >= 0
    &&& params.root_score >= 0
    &&& params.mismatch_penalty <= 0
    &&& params.gap_penalty <= 0
}

/// The windows of a stream satisfy the edge builder's bounds.
pub proof fn lemma_windows_bounds_lemma_stream(
    windows: Seq<Window>,
    stream: BookLemmaStream,
    params: ComparisonParams,
)
    requires
        driver_params_ok(params),
        stream.total_tokens < 0x4000_0000,
        stream.wf(),
        crate::window::windows_positions_ok(
            windows,
            stream.book_id,
            stream.lemmas_spec().len() as int,
            params.window_size as int,
            params.stride as int,
            params.min_length as int,
        ),
        forall|k: int| 0 <= k < windows.len() ==> crate::window::resolves_lemma(
            stream.pages@,
            (#[trigger] windows[k]).global_start as int,
            windows[k].start_page,
            windows[k].start_offset,
        ),
    ensures
        windows_bounds(windows),
{
    let len = stream.lemmas_spec().len() as int;
    assert forall|i: int| 0 <= i < windows.len() implies window_bounds(#[trigger] windows[i]) by {
        crate::window::lemma_window_spans(
            len,
            params.window_size as int,
            params.stride as int,
            params.min_length as int,
            i,
        );
        crate::window::lemma_resolves_offset_bound(
            stream.pages@,
            windows[i].global_start as int,
            windows[i].start_page,
            windows[i].start_offset,
        );
    }
}

/// The windows of a token stream satisfy the edge builder's bounds.
pub proof fn lemma_windows_bounds_token_stream(
    windows: Seq<Window>,
    stream: BookTokenStream,
    params: ComparisonParams,
)
    requires
        driver_params_ok(params),
        stream.total_tokens < 0x4000_0000,
        stream.wf(),
        crate::window::windows_positions_ok(
            windows,
            stream.book_id,
            stream.lemmas_spec().len() as int,
            params.window_size as int,
            params.stride as int,
            params.min_length as int,
        ),
        forall|k: int| 0 <= k < windows.len() ==> crate::window::resolves_tokens(
            stream.pages@,
            (#[trigger] windows[k]).global_start as int,
            windows[k].start_page,
            windows[k].start_offset,
        ),
    ensures
        windows_bounds(windows),
{
    let len = stream.lemmas_spec().len() as int;
    assert forall|i: int| 0 <= i < windows.len() implies window_bounds(#[trigger] windows[i]) by {
        crate::window::lemma_window_spans(
            len,
            params.window_size as int,
            params.stride as int,
            params.min_length as int,
            i,
        );
        crate::window::lemma_resolves_offset_bound_tokens(
            stream.pages@,
            windows[i].global_start as int,
            windows[i].start_page,
            windows[i].start_offset,
        );
    }
}

/// Every edge of a list runs from book a to book b.
pub open spec fn edges_link_books(s: Seq<ReuseEdge>, a: u32, b: u32) -> bool {
    forall|i: int| 0 <= i < s.len() ==> (#[trigger] s[i]).source_book_id == a
        && s[i].target_book_id == b
}

/// Every edge of a list passes the set metric thresholds.
pub open spec fn edges_pass_filters(s: Seq<ReuseEdge>, params: ComparisonParams) -> bool {
    forall|i: int| 0 <= i < s.len() ==> passes_filters(#[trigger] s[i], params)
}

/// The metric filter's output passes every set threshold.
pub proof fn lemma_filter_edges_pass(s: Seq<ReuseEdge>, params: ComparisonParams)
    ensures
        edges_pass_filters(spec_filter_edges(s, params), params),
    decreases s.len(),
{
    if s.len() > 0 {
        lemma_filter_edges_pass(s.drop_last(), params);
        let p = spec_filter_edges(s.drop_last(), params);
        if passes_filters(s.last(), params) {
            assert(forall|i: int| 0 <= i < p.len() ==> #[trigger] p.push(s.last())[i] == p[i]);
            assert(p.push(s.last())[p.len() as int] == s.last());
        }
    }
}

/// The metric filter keeps the book linkage.
pub proof fn lemma_filter_edges_link(s: Seq<ReuseEdge>, params: ComparisonParams, a: u32, b: u32)
    requires
        edges_link_books(s, a, b),
    ensures
        edges_link_books(spec_filter_edges(s, params), a, b),
    decreases s.len(),
{
    if s.len() > 0 {
        assert(edges_link_books(s.drop_last(), a, b)) by {
            assert(forall|i: int| 0 <= i < s.drop_last().len() ==> #[trigger] s.drop_last()[i]
                == s[i]);
        }
        lemma_filter_edges_link(s.drop_last(), params, a, b);
        let p = spec_filter_edges(s.drop_last(), params);
        if passes_filters(s.last(), params) {
            assert(s[s.len() - 1].source_book_id == a);
            assert(forall|i: int| 0 <= i < p.len() ==> #[trigger] p.push(s.last())[i] == p[i]);
            assert(p.push(s.last())[p.len() as int] == s.last());
        }
    }
}

/// The sweep keeps the book linkage: a merged edge carries the left
/// operand's book ids.
pub proof fn lemma_sweep_link(s: Seq<ReuseEdge>, a: u32, b: u32)
    requires
        edges_link_books(s, a, b),
    ensures
        edges_link_books(crate::merge::spec_sweep(s), a, b),
    decreases s.len(),
{
    if s.len() > 0 {
        assert(edges_link_books(s.drop_last(), a, b)) by {
            assert(forall|i: int| 0 <= i < s.drop_last().len() ==> #[trigger] s.drop_last()[i]
                == s[i]);
        }
        lemma_sweep_link(s.drop_last(), a, b);
        let p = crate::merge::spec_sweep(s.drop_last());
        let e = s.last();
        assert(e.source_book_id == a && e.target_book_id == b);
        if p.len() > 0 && crate::merge::sweep_merges(p.last(), e) {
            let m = crate::merge::spec_merge_two(p.last(), e);
            assert(m.source_book_id == p.last().source_book_id);
            assert(forall|i: int| 0 <= i < p.len() - 1 ==> #[trigger] p.update(p.len() - 1, m)[i]
                == p[i]);
            assert(p.update(p.len() - 1, m)[p.len() - 1] == m);
        } else {
            assert(forall|i: int| 0 <= i < p.len() ==> #[trigger] p.push(e)[i] == p[i]);
            assert(p.push(e)[p.len() as int] == e);
        }
    }
}

/// Sorting keeps the book linkage.
pub proof fn lemma_sort_link(
    s: Seq<ReuseEdge>,
    le: spec_fn(ReuseEdge, ReuseEdge) -> bool,
    a: u32,
    b: u32,
)
    requires
        edges_link_books(s, a, b),
    ensures
        edges_link_books(crate::merge::spec_sort(s, le), a, b),
{
    let sorted = crate::merge::spec_sort(s, le);
    assert forall|i: int| 0 <= i < sorted.len() implies (#[trigger] sorted[i]).source_book_id == a
        && sorted[i].target_book_id == b by {
        assert(sorted.contains(sorted[i]));
        crate::merge::lemma_sort_contains(s, le, sorted[i]);
        let t = choose|t: int| 0 <= t < s.len() && s[t] == sorted[i];
        assert(s[t].source_book_id == a);
    }
}

/// The overlap merge keeps the book linkage.
pub proof fn lemma_merge_overlapping_link(s: Seq<ReuseEdge>, a: u32, b: u32)
    requires
        edges_link_books(s, a, b),
    ensures
        edges_link_books(spec_merge_overlapping(s), a, b),
{
    if s.len() > 1 {
        lemma_sort_link(s, crate::merge::merge_le(), a, b);
        lemma_sweep_link(crate::merge::spec_sort(s, crate::merge::merge_le()), a, b);
    }
}

/// Raw edges run from the source windows' book to the target windows'.
pub proof fn lemma_raw_edges_link(
    wa: Seq<Window>,
    wb: Seq<Window>,
    cands: Seq<(usize, usize)>,
    weights_a: Seq<u32>,
    weights_b: Seq<u32>,
    weighted: bool,
    params: ComparisonParams,
    a: u32,
    b: u32,
)
    requires
        forall|x: int| 0 <= x < wa.len() ==> (#[trigger] wa[x]).book_id == a,
        forall|y: int| 0 <= y < wb.len() ==> (#[trigger] wb[y]).book_id == b,
        forall|t: int| 0 <= t < cands.len() ==> (#[trigger] cands[t]).0 < wa.len() && cands[t].1
            < wb.len(),
    ensures
        edges_link_books(spec_raw_edges(wa, wb, cands, weights_a, weights_b, weighted, params), a, b),
    decreases cands.len(),
{
    if cands.len() > 0 {
        assert(forall|t: int| 0 <= t < cands.drop_last().len() ==> #[trigger] cands.drop_last()[t]
            == cands[t]);
        lemma_raw_edges_link(wa, wb, cands.drop_last(), weights_a, weights_b, weighted, params, a, b);
        let p = spec_raw_edges(wa, wb, cands.drop_last(), weights_a, weights_b, weighted, params);
        let x = cands.last().0 as int;
        let y = cands.last().1 as int;
        assert(cands[cands.len() - 1] == cands.last());
        assert(wa[x].book_id == a && wb[y].book_id == b);
        let m = pair_model(
            wa,
            wb,
            x,
            y,
            if weighted {
                weights_a
            } else {
                Seq::empty()
            },
            if weighted {
                weights_b
            } else {
                Seq::empty()
            },
            weighted,
            params,
        );
        if align_accepted(m) {
            let e = spec_edge_of_model(wa[x], wb[y], m, p.len() as u64);
            assert(e.source_book_id == a && e.target_book_id == b);
            assert(forall|i: int| 0 <= i < p.len() ==> #[trigger] p.push(e)[i] == p[i]);
            assert(p.push(e)[p.len() as int] == e);
        }
    }
}

/// Every pipeline edge links the two books and passes every set
/// metric threshold.
pub proof fn lemma_pipeline_edges_props(
    wa: Seq<Window>,
    wb: Seq<Window>,
    weights_a: Seq<u32>,
    weights_b: Seq<u32>,
    weighted: bool,
    params: ComparisonParams,
    a: u32,
    b: u32,
)
    requires
        wa.len() <= usize::MAX,
        forall|x: int| 0 <= x < wa.len() ==> (#[trigger] wa[x]).book_id == a,
        forall|y: int| 0 <= y < wb.len() ==> (#[trigger] wb[y]).book_id == b,
    ensures
        edges_link_books(spec_pipeline_edges(wa, wb, weights_a, weights_b, weighted, params), a, b),
        edges_pass_filters(
            spec_pipeline_edges(wa, wb, weights_a, weights_b, weighted, params),
            params,
        ),
{
    let cands = crate::filter::spec_candidates(wa, wb, params);
    crate::filter::lemma_cands_upto_range(wa, wb, params, wa.len());
    lemma_raw_edges_link(wa, wb, cands, weights_a, weights_b, weighted, params, a, b);
    let raw = spec_raw_edges(wa, wb, cands, weights_a, weights_b, weighted, params);
    lemma_merge_overlapping_link(raw, a, b);
    lemma_filter_edges_link(spec_merge_overlapping(raw), params, a, b);
    lemma_filter_edges_pass(spec_merge_overlapping(raw), params);
}

/// An empty window list on either side gives an empty edge list.
pub proof fn lemma_pipeline_empty(
    wa: Seq<Window>,
    wb: Seq<Window>,
    weights_a: Seq<u32>,
    weights_b: Seq<u32>,
    weighted: bool,
    params: ComparisonParams,
)
    requires
        wa.len() == 0 || wb.len() == 0,
    ensures
        spec_pipeline_edges(wa, wb, weights_a, weights_b, weighted, params).len() == 0,
{
    if wb.len() == 0 {
        crate::filter::lemma_candidates_empty(wa, wb, params, wa.len());
    }
    let cands = crate::filter::spec_candidates(wa, wb, params);
    assert(cands.len() == 0);
    let raw = spec_raw_edges(wa, wb, cands, weights_a, weights_b, weighted, params);
    assert(raw.len() == 0);
    assert(spec_merge_overlapping(raw) == raw);
    assert(spec_filter_edges(raw, params).len() == 0);
}

/// The edge list a lemma-stream comparison returns: the pipeline's
/// result over the two streams' windows, unweighted. The window
/// clauses determine both window sequences uniquely, so the edge list
/// is a function of the streams and the parameters alone.
pub open spec fn edges_of_lemma_streams(
    edges: Seq<ReuseEdge>,
    stream_a: BookLemmaStream,
    stream_b: BookLemmaStream,
    params: ComparisonParams,
) -> bool {
    exists|wa: Seq<Window>, wb: Seq<Window>| {
        &&& #[trigger] crate::window::lemma_stream_windows(wa, stream_a, params)
        &&& #[trigger] crate::window::lemma_stream_windows(wb, stream_b, params)
        &&& edges == spec_pipeline_edges(wa, wb, Seq::empty(), Seq::empty(), false, params)
    }
}

/// The edge list a token-stream comparison returns: the pipeline's
/// result over the two streams' windows, weighted when weighting is
/// enabled and the first table is non-empty.
pub open spec fn edges_of_token_streams(
    edges: Seq<ReuseEdge>,
    stream_a: BookTokenStream,
    stream_b: BookTokenStream,
    weights_a: Seq<u32>,
    weights_b: Seq<u32>,
    params: ComparisonParams,
) -> bool {
    exists|wa: Seq<Window>, wb: Seq<Window>| {
        &&& #[trigger] crate::window::token_stream_windows(wa, stream_a, params)
        &&& #[trigger] crate::window::token_stream_windows(wb, stream_b, params)
        &&& edges == spec_pipeline_edges(
            wa,
            wb,
            weights_a,
            weights_b,
            params.use_weights && weights_a.len() > 0,
            params,
        )
    }
}

/// Compare two books given their already-loaded lemma streams. Windows
/// carry no root information, so only lemma matching applies.
pub fn compare_books_from_streams(
    stream_a: &BookLemmaStream,
    stream_b: &BookLemmaStream,
    params: &ComparisonParams,
) -> (r: Result<ComparisonResult, DbError>)
    requires
        stream_a.wf(),
        stream_b.wf(),
        stream_a.total_tokens < 0x4000_0000,
        stream_b.total_tokens < 0x4000_0000,
        driver_params_ok(*params),
    ensures
        r is Ok,
        ({
            let res = r->Ok_0;
            &&& edges_of_lemma_streams(res.edges@, *stream_a, *stream_b, *params)
            &&& edges_link_books(res.edges@, stream_a.book_id, stream_b.book_id)
            &&& edges_pass_filters(res.edges@, *params)
            &&& edges_wf(res.edges@)
            &&& ((stream_a.lemmas_spec().len() == 0 || stream_b.lemmas_spec().len() == 0)
                ==> res.edges@.len() == 0)
            &&& summary_matches(
                res.summary,
                res.edges@,
                stream_a.book_id,
                stream_a.total_tokens as int,
                stream_b.book_id,
                stream_b.total_tokens as int,
            )
            &&& res.parameters == *params
            &&& res.book_a.id == stream_a.book_id
            &&& res.book_a.token_count == stream_a.total_tokens as u64
            &&& res.book_b.id == stream_b.book_id
            &&& res.book_b.token_count == stream_b.total_tokens as u64
        }),
{
    let windows_a = generate_windows(stream_a, params);
    let windows_b = generate_windows(stream_b, params);
    proof {
        lemma_windows_bounds_lemma_stream(windows_a@, *stream_a, *params);
        lemma_windows_bounds_lemma_stream(windows_b@, *stream_b, *params);
    }
    let no_weights: Vec<u32> = Vec::new();
    let edges = compare_windows(&windows_a, &windows_b, &no_weights, &no_weights, false, params);
    proof {
        assert(no_weights@ =~= Seq::<u32>::empty());
        assert(edges@ == spec_pipeline_edges(
            windows_a@,
            windows_b@,
            Seq::empty(),
            Seq::empty(),
            false,
            *params,
        ));
        assert(crate::window::lemma_stream_windows(windows_a@, *stream_a, *params));
        assert(crate::window::lemma_stream_windows(windows_b@, *stream_b, *params));
        assert(edges_of_lemma_streams(edges@, *stream_a, *stream_b, *params));
        lemma_pipeline_edges_props(
            windows_a@,
            windows_b@,
            Seq::empty(),
            Seq::empty(),
            false,
            *params,
            stream_a.book_id,
            stream_b.book_id,
        );
        if stream_a.lemmas_spec().len() == 0 || stream_b.lemmas_spec().len() == 0 {
            lemma_pipeline_empty(
                windows_a@,
                windows_b@,
                no_weights@,
                no_weights@,
                false,
                *params,
            );
        }
    }
    let summary = build_summary(
        &edges,
        stream_a.book_id,
        stream_a.total_tokens,
        stream_b.book_id,
        stream_b.total_tokens,
    );
    let book_a = BookMetadata {
        id: stream_a.book_id,
        corpus: String::new(),
        title: String::new(),
        author_id: None,
        death_ah: None,
        century_ah: None,
        genre_id: None,
        page_count: #[verifier::truncate] (stream_a.pages.len() as u32),
        token_count: stream_a.total_tokens as u64,
    };
    let book_b = BookMetadata {
        id: stream_b.book_id,
        corpus: String::new(),
        title: String::new(),
        author_id: None,
        death_ah: None,
        century_ah: None,
        genre_id: None,
        page_count: #[verifier::truncate] (stream_b.pages.len() as u32),
        token_count: stream_b.total_tokens as u64,
    };
    Ok(
        ComparisonResult {
            version: crate::output::version_string(),
            parameters: *params,
            book_a,
            book_b,
            summary,
            edges,
        },
    )
}

/// Compare two books given their token streams and per-mille IDF weight
/// tables; weighting applies when enabled and a table is present.
pub fn compare_token_streams_internal(
    stream_a: &BookTokenStream,
    stream_b: &BookTokenStream,
    weights_a: &Vec<u32>,
    weights_b: &Vec<u32>,
    params: &ComparisonParams,
) -> (r: Result<ComparisonResult, DbError>)
    requires
        stream_a.wf(),
        stream_b.wf(),
        stream_a.total_tokens < 0x4000_0000,
        stream_b.total_tokens < 0x4000_0000,
        driver_params_ok(*params),
        weights_wf(weights_a@),
        weights_wf(weights_b@),
    ensures
        r is Ok,
        ({
            let res = r->Ok_0;
            &&& edges_of_token_streams(
                res.edges@,
                *stream_a,
                *stream_b,
                weights_a@,
                weights_b@,
                *params,
            )
            &&& edges_link_books(res.edges@, stream_a.book_id, stream_b.book_id)
            &&& edges_pass_filters(res.edges@, *params)
            &&& edges_wf(res.edges@)
            &&& ((stream_a.lemmas_spec().len() == 0 || stream_b.lemmas_spec().len() == 0)
                ==> res.edges@.len() == 0)
            &&& summary_matches(
                res.summary,
                res.edges@,
                stream_a.book_id,
                stream_a.total_tokens as int,
                stream_b.book_id,
                stream_b.total_tokens as int,
            )
            &&& res.parameters == *params
            &&& res.book_a.id == stream_a.book_id
            &&& res.book_a.token_count == stream_a.total_tokens as u64
            &&& res.book_b.id == stream_b.book_id
            &&& res.book_b.token_count == stream_b.total_tokens as u64
        }),
{
    let windows_a = generate_windows_with_roots(stream_a, params);
    let windows_b = generate_windows_with_roots(stream_b, params);
    proof {
        lemma_windows_bounds_token_stream(windows_a@, *stream_a, *params);
        lemma_windows_bounds_token_stream(windows_b@, *stream_b, *params);
    }
    let weighted = params.use_weights && weights_a.len() > 0;
    let edges = compare_windows(&windows_a, &windows_b, weights_a, weights_b, weighted, params);
    proof {
        assert(weighted == (params.use_weights && weights_a@.len() > 0));
        assert(crate::window::token_stream_windows(windows_a@, *stream_a, *params));
        assert(crate::window::token_stream_windows(windows_b@, *stream_b, *params));
        assert(edges_of_token_streams(
            edges@,
            *stream_a,
            *stream_b,
            weights_a@,
            weights_b@,
            *params,
        ));
        lemma_pipeline_edges_props(
            windows_a@,
            windows_b@,
            weights_a@,
            weights_b@,
            weighted,
            *params,
            stream_a.book_id,
            stream_b.book_id,
        );
        if stream_a.lemmas_spec().len() == 0 || stream_b.lemmas_spec().len() == 0 {
            lemma_pipeline_empty(
                windows_a@,
                windows_b@,
                weights_a@,
                weights_b@,
                weighted,
                *params,
            );
        }
    }
    let summary = build_summary(
        &edges,
        stream_a.book_id,
        stream_a.total_tokens,
        stream_b.book_id,
        stream_b.total_tokens,
    );
    let book_a = BookMetadata {
        id: stream_a.book_id,
        corpus: String::new(),
        title: String::new(),
        author_id: None,
        death_ah: None,
        century_ah: None,
        genre_id: None,
        page_count: #[verifier::truncate] (stream_a.pages.len() as u32),
        token_count: stream_a.total_tokens as u64,
    };
    let book_b = BookMetadata {
        id: stream_b.book_id,
        corpus: String::new(),
        title: String::new(),
        author_id: None,
        death_ah: None,
        century_ah: None,
        genre_id: None,
        page_count: #[verifier::truncate] (stream_b.pages.len() as u32),
        token_count: stream_b.total_tokens as u64,
    };
    Ok(
        ComparisonResult {
            version: crate::output::version_string(),
            parameters: *params,
            book_a,
            book_b,
            summary,
            edges,
        },
    )
}

/// Occurrences of a lemma id in a stream.
pub open spec fn count_occ(s: Seq<u32>, id: u32) -> int
    decreases s.len(),
{
    if s.len() == 0 {
        0
    } else {
        count_occ(s.drop_last(), id) + if s.last() == id {
            1int
        } else {
            0int
        }
    }
}

/// Count the document frequency of every lemma id up to max_lemma_id.
/// This is the integer half of the IDF weighting: a driver turns the
/// frequencies into clamped per-mille weights.
#[verifier::loop_isolation(false)]
pub fn count_lemma_frequencies(lemma_ids: &[u32], max_lemma_id: usize) -> (r: Vec<u32>)
    requires
        max_lemma_id < 0x1000_0000,
        lemma_ids@.len() < 0x1_0000_0000,
    ensures
        r@.len() == max_lemma_id + 1,
        forall|id: int| 0 <= id <= max_lemma_id ==> r@[id] == count_occ(
            lemma_ids@,
            id as u32,
        ),
{
    let mut counts: Vec<u32> = vec![0u32; max_lemma_id + 1];
    let ghost lv = lemma_ids@;
    let mut i: usize = 0;
    while i < lemma_ids.len()
        invariant
            i <= lv.len(),
            counts@.len() == max_lemma_id + 1,
            forall|id: int| 0 <= id <= max_lemma_id ==> counts@[id] == count_occ(
                lv.take(i as int),
                id as u32,
            ),
        decreases lv.len() - i,
    {
        proof {
            assert(lv.take(i + 1).drop_last() =~= lv.take(i as int));
            assert(lv.take(i + 1).last() == lv[i as int]);
            assert forall|id: int| 0 <= id <= max_lemma_id implies #[trigger] count_occ(
                lv.take(i as int),
                id as u32,
            ) <= lv.take(i as int).len() by {
                lemma_count_occ_le(lv.take(i as int), id as u32);
            }
        }
        let idx = lemma_ids[i] as usize;
        if idx < counts.len() {
            let ghost prev = counts@;
            let c = counts[idx];
            counts.set(idx, c + 1);
            proof {
                assert forall|id: int| 0 <= id <= max_lemma_id implies counts@[id] == count_occ(
                    lv.take(i + 1),
                    id as u32,
                ) by {
                    if id == idx {
                        assert(counts@[id] == prev[id] + 1);
                    } else {
                        assert(counts@[id] == prev[id]);
                    }
                }
            }
        } else {
            proof {
                assert(lv[i as int] > max_lemma_id);
            }
        }
        i = i + 1;
    }
    proof {
        assert(lv.take(lv.len() as int) =~= lv);
    }
    counts
}

pub proof fn lemma_count_occ_le(s: Seq<u32>, id: u32)
    ensures
        0 <= count_occ(s, id) <= s.len(),
    decreases s.len(),
{
    if s.len() > 0 {
        lemma_count_occ_le(s.drop_last(), id);
    }
}

/// The largest lemma id of a stream, 0 for an empty one.
pub open spec fn max_id_of(s: Seq<u32>) -> int
    decreases s.len(),
{
    if s.len() == 0 {
        0
    } else {
        max2(max_id_of(s.drop_last()), s.last() as int)
    }
}

/// Find the maximum lemma id over both token streams.
#[verifier::loop_isolation(false)]
pub fn find_max_lemma_id(stream_a: &BookTokenStream, stream_b: &BookTokenStream) -> (r: usize)
    ensures
        r == max2(max_id_of(stream_a.lemmas_spec()), max_id_of(stream_b.lemmas_spec())),
{
    let lemmas_a = stream_a.flat_lemma_ids();
    let lemmas_b = stream_b.flat_lemma_ids();
    let mut max_v: u32 = 0;
    let mut i: usize = 0;
    while i < lemmas_a.len()
        invariant
            i <= lemmas_a@.len(),
            max_v == max2(0, max_id_of(lemmas_a@.take(i as int))),
        decreases lemmas_a@.len() - i,
    {
        proof {
            assert(lemmas_a@.take(i + 1).drop_last() =~= lemmas_a@.take(i as int));
            assert(lemmas_a@.take(i + 1).last() == lemmas_a@[i as int]);
        }
        if lemmas_a[i] > max_v {
            max_v = lemmas_a[i];
        }
        i = i + 1;
    }
    let max_a = max_v;
    let mut j: usize = 0;
    let mut max_w: u32 = 0;
    while j < lemmas_b.len()
        invariant
            j <= lemmas_b@.len(),
            max_w == max2(0, max_id_of(lemmas_b@.take(j as int))),
        decreases lemmas_b@.len() - j,
    {
        proof {
            assert(lemmas_b@.take(j + 1).drop_last() =~= lemmas_b@.take(j as int));
            assert(lemmas_b@.take(j + 1).last() == lemmas_b@[j as int]);
        }
        if lemmas_b[j] > max_w {
            max_w = lemmas_b[j];
        }
        j = j + 1;
    }
    proof {
        assert(lemmas_a@.take(lemmas_a@.len() as int) =~= lemmas_a@);
        assert(lemmas_b@.take(lemmas_b@.len() as int) =~= lemmas_b@);
        lemma_max_id_nonneg(lemmas_a@);
        lemma_max_id_nonneg(lemmas_b@);
    }
    if max_a >= max_w {
        max_a as usize
    } else {
        max_w as usize
    }
}

pub proof fn lemma_max_id_nonneg(s: Seq<u32>)
    ensures
        max_id_of(s) >= 0,
    decreases s.len(),
{
    if s.len() > 0 {
        lemma_max_id_nonneg(s.drop_last());
    }
}


/// With no accepted candidate pair, no raw edge is built.
pub proof fn lemma_raw_edges_empty(
    wa: Seq<Window>,
    wb: Seq<Window>,
    cands: Seq<(usize, usize)>,
    weights_a: Seq<u32>,
    weights_b: Seq<u32>,
    weighted: bool,
    params: ComparisonParams,
)
    requires
        forall|t: int| 0 <= t < cands.len() ==> !align_accepted(
            pair_model(
                wa,
                wb,
                (#[trigger] cands[t]).0 as int,
                cands[t].1 as int,
                if weighted {
                    weights_a
                } else {
                    Seq::empty()
                },
                if weighted {
                    weights_b
                } else {
                    Seq::empty()
                },
                weighted,
                params,
            ),
        ),
    ensures
        spec_raw_edges(wa, wb, cands, weights_a, weights_b, weighted, params).len() == 0,
    decreases cands.len(),
{
    if cands.len() > 0 {
        assert(forall|t: int| 0 <= t < cands.drop_last().len() ==> #[trigger] cands.drop_last()[t]
            == cands[t]);
        lemma_raw_edges_empty(wa, wb, cands.drop_last(), weights_a, weights_b, weighted, params);
        assert(cands[cands.len() - 1] == cands.last());
    }
}

/// Window pairs whose lemma ids and non-zero root ids are disjoint
/// produce an empty edge list: no candidate aligns, so nothing is
/// merged or filtered.
pub proof fn lemma_disjoint_windows_empty(
    wa: Seq<Window>,
    wb: Seq<Window>,
    weights_a: Seq<u32>,
    weights_b: Seq<u32>,
    weighted: bool,
    params: ComparisonParams,
)
    requires
        windows_bounds(wa),
        windows_bounds(wb),
        params.lemma_score >= 0,
        params.root_score >= 0,
        params.mismatch_penalty <= 0,
        params.gap_penalty <= 0,
        weighted ==> weights_wf(weights_a) && weights_wf(weights_b),
        crate::align::score_threshold(params) > 0,
        wa.len() <= usize::MAX,
        wb.len() <= usize::MAX,
        forall|x: int, y: int, i: int, j: int| 0 <= x < wa.len() && 0 <= y < wb.len() && 0 <= i
            < wa[x].lemma_ids@.len() && 0 <= j < wb[y].lemma_ids@.len() ==> #[trigger] wa[x].lemma_ids@[i]
            != #[trigger] wb[y].lemma_ids@[j],
        forall|x: int, y: int, i: int, j: int| 0 <= x < wa.len() && 0 <= y < wb.len() ==> (
        #[trigger] crate::align::root_at(wa[x].root_ids@, i) != #[trigger] crate::align::root_at(
            wb[y].root_ids@,
            j,
        ) || crate::align::root_at(wa[x].root_ids@, i) == 0),
    ensures
        spec_pipeline_edges(wa, wb, weights_a, weights_b, weighted, params).len() == 0,
{
    let cands = crate::filter::spec_candidates(wa, wb, params);
    crate::filter::lemma_cands_upto_range(wa, wb, params, wa.len());
    assert forall|t: int| 0 <= t < cands.len() implies !align_accepted(
        pair_model(
            wa,
            wb,
            (#[trigger] cands[t]).0 as int,
            cands[t].1 as int,
            if weighted {
                weights_a
            } else {
                Seq::empty()
            },
            if weighted {
                weights_b
            } else {
                Seq::empty()
            },
            weighted,
            params,
        ),
    ) by {
        let x = cands[t].0 as int;
        let y = cands[t].1 as int;
        let m = pair_model(
            wa,
            wb,
            x,
            y,
            if weighted {
                weights_a
            } else {
                Seq::empty()
            },
            if weighted {
                weights_b
            } else {
                Seq::empty()
            },
            weighted,
            params,
        );
        assert(window_bounds(wa[x]) && window_bounds(wb[y]));
        crate::align::lemma_disjoint_not_accepted(m);
    }
    lemma_raw_edges_empty(wa, wb, cands, weights_a, weights_b, weighted, params);
    let raw = spec_raw_edges(wa, wb, cands, weights_a, weights_b, weighted, params);
    assert(spec_merge_overlapping(raw) == raw);
    assert(spec_filter_edges(raw, params).len() == 0);
}

/// Whether a year is a leap year in the Gregorian calendar.
pub open spec fn spec_is_leap(year: int) -> bool {
    (year % 4 == 0 && year % 100 != 0) || year % 400 == 0
}

fn is_leap_year(year: u64) -> (r: bool)
    ensures
        r == spec_is_leap(year as int),
{
    (year % 4 == 0 && year % 100 != 0) || year % 400 == 0
}

/// Days in a year.
pub open spec fn spec_days_in_year(year: int) -> int {
    if spec_is_leap(year) {
        366
    } else {
        365
    }
}

/// Split a day count into (year, day-of-year) starting from the given
/// year.
pub open spec fn year_split(year: int, days: int) -> (int, int)
    decreases days,
{
    if days < spec_days_in_year(year) || days < 0 {
        (year, days)
    } else {
        year_split(year + 1, days - spec_days_in_year(year))
    }
}

/// Split a day-of-year into (month, day-of-month index), months from 1.
pub open spec fn spec_month_day(rem: int, leap: bool) -> (int, int) {
    let c1 = 31int;
    let c2 = c1 + (if leap { 29int } else { 28int });
    let c3 = c2 + 31;
    let c4 = c3 + 30;
    let c5 = c4 + 31;
    let c6 = c5 + 30;
    let c7 = c6 + 31;
    let c8 = c7 + 31;
    let c9 = c8 + 30;
    let c10 = c9 + 31;
    let c11 = c10 + 30;
    if rem < c1 {
        (1int, rem)
    } else if rem < c2 {
        (2int, rem - c1)
    } else if rem < c3 {
        (3int, rem - c2)
    } else if rem < c4 {
        (4int, rem - c3)
    } else if rem < c5 {
        (5int, rem - c4)
    } else if rem < c6 {
        (6int, rem - c5)
    } else if rem < c7 {
        (7int, rem - c6)
    } else if rem < c8 {
        (8int, rem - c7)
    } else if rem < c9 {
        (9int, rem - c8)
    } else if rem < c10 {
        (10int, rem - c9)
    } else if rem < c11 {
        (11int, rem - c10)
    } else {
        (12int, rem - c11)
    }
}

/// A number zero-padded to at least two digits.
pub open spec fn pad2_str(v: int) -> Seq<char> {
    if v < 10 {
        seq!['0'] + crate::output::dec_str(v)
    } else {
        crate::output::dec_str(v)
    }
}

fn push_pad2(s: &mut String, v: u64)
    ensures
        final(s)@ == old(s)@ + pad2_str(v as int),
{
    if v < 10 {
        s.append("0");
        crate::output::push_u64(s, v);
        proof {
            reveal_strlit("0");
            assert("0"@ =~= seq!['0']);
            assert(s@ =~= old(s)@ + pad2_str(v as int));
        }
    } else {
        crate::output::push_u64(s, v);
    }
}

/// The ISO-8601-style UTC timestamp of a Unix second count, without
/// leap-second handling.
pub open spec fn spec_timestamp(secs: int) -> Seq<char> {
    let days = secs / 86400;
    let sod = secs % 86400;
    let y = year_split(1970, days).0;
    let rem = year_split(1970, days).1;
    let mo = spec_month_day(rem, spec_is_leap(y)).0;
    let d0 = spec_month_day(rem, spec_is_leap(y)).1;
    crate::output::dec_str(y) + "-"@ + pad2_str(mo) + "-"@ + pad2_str(d0 + 1) + "T"@ + pad2_str(
        sod / 3600,
    ) + ":"@ + pad2_str(sod % 3600 / 60) + ":"@ + pad2_str(sod % 60) + "Z"@
}

/// Format a Unix second count as an ISO-8601-style UTC timestamp.
#[verifier::loop_isolation(false)]
pub fn format_timestamp(secs: u64) -> (r: String)
    ensures
        r@ == spec_timestamp(secs as int),
{
    let days_since_epoch = secs / 86400;
    let secs_today = secs % 86400;

    let mut year: u64 = 1970;
    let mut remaining_days = days_since_epoch;
    let mut diy = if is_leap_year(year) {
        366
    } else {
        365
    };
    while remaining_days >= diy
        invariant
            diy == spec_days_in_year(year as int),
            year_split(1970, days_since_epoch as int) == year_split(
                year as int,
                remaining_days as int,
            ),
            year >= 1970,
            year - 1970 <= days_since_epoch - remaining_days,
        decreases remaining_days,
    {
        remaining_days = remaining_days - diy;
        year = year + 1;
        diy = if is_leap_year(year) {
            366
        } else {
            365
        };
    }
    proof {
        assert(year_split(year as int, remaining_days as int) == (year as int,
        remaining_days as int));
    }

    let leap = is_leap_year(year);
    let c1: u64 = 31;
    let c2: u64 = c1 + (if leap {
        29
    } else {
        28
    });
    let c3: u64 = c2 + 31;
    let c4: u64 = c3 + 30;
    let c5: u64 = c4 + 31;
    let c6: u64 = c5 + 30;
    let c7: u64 = c6 + 31;
    let c8: u64 = c7 + 31;
    let c9: u64 = c8 + 30;
    let c10: u64 = c9 + 31;
    let c11: u64 = c10 + 30;
    let (month, day0): (u64, u64) = if remaining_days < c1 {
        (1, remaining_days)
    } else if remaining_days < c2 {
        (2, remaining_days - c1)
    } else if remaining_days < c3 {
        (3, remaining_days - c2)
    } else if remaining_days < c4 {
        (4, remaining_days - c3)
    } else if remaining_days < c5 {
        (5, remaining_days - c4)
    } else if remaining_days < c6 {
        (6, remaining_days - c5)
    } else if remaining_days < c7 {
        (7, remaining_days - c6)
    } else if remaining_days < c8 {
        (8, remaining_days - c7)
    } else if remaining_days < c9 {
        (9, remaining_days - c8)
    } else if remaining_days < c10 {
        (10, remaining_days - c9)
    } else {
        (11, remaining_days - c10)
    };
    let (month, day0): (u64, u64) = if month == 11 && remaining_days >= c11 {
        (12, remaining_days - c11)
    } else {
        (month, day0)
    };

    let mut s = String::new();
    crate::output::push_u64(&mut s, year);
    s.append("-");
    push_pad2(&mut s, month);
    s.append("-");
    push_pad2(&mut s, day0 + 1);
    s.append("T");
    push_pad2(&mut s, secs_today / 3600);
    s.append(":");
    push_pad2(&mut s, secs_today % 3600 / 60);
    s.append(":");
    push_pad2(&mut s, secs_today % 60);
    s.append("Z");
    proof {
        reveal_strlit("-");
        reveal_strlit("T");
        reveal_strlit(":");
        reveal_strlit("Z");
        assert("-"@ =~= seq!['-']);
        assert("T"@ =~= seq!['T']);
        assert(":"@ =~= seq![':']);
        assert("Z"@ =~= seq!['Z']);
        assert((month as int, day0 as int) == spec_month_day(
            remaining_days as int,
            spec_is_leap(year as int),
        ));
        assert(s@ =~= spec_timestamp(secs as int));
    }
    s
}

/// Relies on std::time::SystemTime::now for the seconds since the Unix
/// epoch; 0 when the clock reads before the epoch. The value depends
/// on the clock, so nothing is promised of it.
#[verifier::external_body]
fn unix_now_secs() -> u64 {
    std::time::SystemTime::now().duration_since(std::time::UNIX_EPOCH).unwrap_or_default().as_secs()
}

/// The current time as an ISO-8601-style UTC timestamp.
fn chrono_lite_timestamp() -> (r: String)
    ensures
        exists|s: int| 0 <= s && r@ == spec_timestamp(s),
{
    let secs = unix_now_secs();
    let r = format_timestamp(secs);
    proof {
        assert(r@ == spec_timestamp(secs as int));
    }
    r
}

/// Compare two books from pre-loaded token streams, with reconstructed
/// surface text on every edge. The per-mille IDF weight tables come in
/// prepared; weighting applies when enabled and the first is non-empty.
#[verifier::loop_isolation(false)]
pub fn compare_books_from_token_streams(
    stream_a: &BookTokenStream,
    stream_b: &BookTokenStream,
    token_to_surface: &[String],
    weights_a: &Vec<u32>,
    weights_b: &Vec<u32>,
    params: &ComparisonParams,
    context_tokens: usize,
) -> (r: Result<crate::models::ComparisonResultWithText, DbError>)
    requires
        stream_a.wf(),
        stream_b.wf(),
        stream_a.total_tokens < 0x4000_0000,
        stream_b.total_tokens < 0x4000_0000,
        driver_params_ok(*params),
        weights_wf(weights_a@),
        weights_wf(weights_b@),
        context_tokens < 0x4000_0000,
    ensures
        r is Ok,
        ({
            let res = r->Ok_0;
            &&& exists|wa: Seq<Window>, wb: Seq<Window>| {
                let base_edges = spec_pipeline_edges(
                    wa,
                    wb,
                    weights_a@,
                    weights_b@,
                    params.use_weights && weights_a@.len() > 0,
                    *params,
                );
                &&& #[trigger] crate::window::token_stream_windows(wa, *stream_a, *params)
                &&& #[trigger] crate::window::token_stream_windows(wb, *stream_b, *params)
                &&& res.edges@.len() == base_edges.len()
                &&& (forall|i: int| 0 <= i < base_edges.len()
                    ==> crate::models::edge_with_text_matches(
                    #[trigger] res.edges@[i],
                    base_edges[i],
                    *stream_a,
                    *stream_b,
                    token_to_surface@,
                    context_tokens as int,
                ))
                &&& summary_matches(
                    res.summary,
                    base_edges,
                    stream_a.book_id,
                    stream_a.total_tokens as int,
                    stream_b.book_id,
                    stream_b.total_tokens as int,
                )
            }
            &&& ((stream_a.lemmas_spec().len() == 0 || stream_b.lemmas_spec().len() == 0)
                ==> res.edges@.len() == 0)
            &&& res.summary.edge_count == res.edges@.len()
            &&& res.book_a.id == stream_a.book_id
            &&& res.book_b.id == stream_b.book_id
        }),
{
    let base = match compare_token_streams_internal(stream_a, stream_b, weights_a, weights_b,
        params) {
        Ok(b) => b,
        Err(e) => {
            return Err(e);
        },
    };
    let ghost (wa, wb) = choose|wa: Seq<Window>, wb: Seq<Window>| {
        &&& #[trigger] crate::window::token_stream_windows(wa, *stream_a, *params)
        &&& #[trigger] crate::window::token_stream_windows(wb, *stream_b, *params)
        &&& base.edges@ == spec_pipeline_edges(
            wa,
            wb,
            weights_a@,
            weights_b@,
            params.use_weights && weights_a@.len() > 0,
            *params,
        )
    };
    let mut edges_with_text: Vec<crate::models::ReuseEdgeWithText> = Vec::new();
    let mut k: usize = 0;
    while k < base.edges.len()
        invariant
            k <= base.edges@.len(),
            edges_with_text@.len() == k,
            edges_wf(base.edges@),
            forall|i: int| 0 <= i < k ==> crate::models::edge_with_text_matches(
                #[trigger] edges_with_text@[i],
                base.edges@[i],
                *stream_a,
                *stream_b,
                token_to_surface@,
                context_tokens as int,
            ),
        decreases base.edges@.len() - k,
    {
        proof {
            assert(edge_wf(base.edges@[k as int]));
            assert(usize::MAX >= 0xffff_ffff);
        }
        let e = crate::models::ReuseEdgeWithText::from_edge(
            &base.edges[k],
            stream_a,
            stream_b,
            token_to_surface,
            context_tokens,
        );
        edges_with_text.push(e);
        k = k + 1;
    }
    let generated_at = chrono_lite_timestamp();
    proof {
        assert(crate::window::token_stream_windows(wa, *stream_a, *params));
        assert(crate::window::token_stream_windows(wb, *stream_b, *params));
    }
    Ok(
        crate::models::ComparisonResultWithText {
            version: base.version,
            generated_at,
            parameters: base.parameters,
            book_a: crate::models::ViewerBookInfo::from_metadata(&base.book_a),
            book_b: crate::models::ViewerBookInfo::from_metadata(&base.book_b),
            summary: base.summary,
            edges: edges_with_text,
        },
    )
}

} // verus!