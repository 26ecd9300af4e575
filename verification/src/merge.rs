//! Merge overlapping reuse edges into maximal spans.
//!
//! Overlapping windows detect the same reuse several times. The overlap
//! merge sorts the edges and sweeps left to right, folding each edge
//! into the accumulator while both its source and target ranges overlap
//! it. Counts of a merged edge are estimated from the per-length rates
//! of the left operand, since the original alignments are gone; the
//! estimation formulas are part of the contract.

use vstd::prelude::*;

use crate::models::ReuseEdge;

verus! {

/// Bounds under which the merge arithmetic stays in range: global
/// positions and counts fit comfortably below 2^30.
pub open spec fn edge_wf(e: ReuseEdge) -> bool {
    &&& e.source_global_start <= e.source_global_end < 0x4000_0000
    &&& e.target_global_start <= e.target_global_end < 0x4000_0000
}

pub open spec fn edges_wf(s: Seq<ReuseEdge>) -> bool {
    forall|i: int| 0 <= i < s.len() ==> edge_wf(#[trigger] s[i])
}

/// Sort key of the overlap merge: (source book, target book, source
/// start, target start), lexicographic.
pub open spec fn merge_key_le(a: ReuseEdge, b: ReuseEdge) -> bool {
    ||| a.source_book_id < b.source_book_id
    ||| (a.source_book_id == b.source_book_id && (b.target_book_id > a.target_book_id || (
    a.target_book_id == b.target_book_id && (a.source_global_start < b.source_global_start || (
    a.source_global_start == b.source_global_start && a.target_global_start
        <= b.target_global_start)))))
}

/// Sort key of the adjacency merge and the final subsumption order:
/// (source book, target book, source start), lexicographic.
pub open spec fn pos_key_le(a: ReuseEdge, b: ReuseEdge) -> bool {
    ||| a.source_book_id < b.source_book_id
    ||| (a.source_book_id == b.source_book_id && (b.target_book_id > a.target_book_id || (
    a.target_book_id == b.target_book_id && a.source_global_start <= b.source_global_start)))
}

/// Sort key of the subsumption pass: aligned length, descending.
pub open spec fn len_desc_le(a: ReuseEdge, b: ReuseEdge) -> bool {
    a.aligned_length >= b.aligned_length
}

/// Stable insertion of x into s: x goes after every element e with
/// le(e, x).
pub open spec fn spec_insert(
    s: Seq<ReuseEdge>,
    x: ReuseEdge,
    le: spec_fn(ReuseEdge, ReuseEdge) -> bool,
) -> Seq<ReuseEdge>
    decreases s.len(),
{
    if s.len() == 0 {
        seq![x]
    } else if le(s[0], x) {
        seq![s[0]] + spec_insert(s.skip(1), x, le)
    } else {
        seq![x] + s
    }
}

/// Stable insertion sort.
pub open spec fn spec_sort(s: Seq<ReuseEdge>, le: spec_fn(ReuseEdge, ReuseEdge) -> bool) -> Seq<
    ReuseEdge,
>
    decreases s.len(),
{
    if s.len() == 0 {
        Seq::empty()
    } else {
        spec_insert(spec_sort(s.drop_last(), le), s.last(), le)
    }
}

pub open spec fn sorted_by(s: Seq<ReuseEdge>, le: spec_fn(ReuseEdge, ReuseEdge) -> bool) -> bool {
    forall|i: int, j: int| 0 <= i < j < s.len() ==> le(#[trigger] s[i], #[trigger] s[j])
}

/// Inserting at the first position whose element is not le x yields the
/// take/skip decomposition around that position.
pub proof fn lemma_spec_insert_at(
    s: Seq<ReuseEdge>,
    x: ReuseEdge,
    le: spec_fn(ReuseEdge, ReuseEdge) -> bool,
    idx: int,
)
    requires
        0 <= idx <= s.len(),
        forall|t: int| 0 <= t < idx ==> le(#[trigger] s[t], x),
        idx < s.len() ==> !le(s[idx], x),
    ensures
        spec_insert(s, x, le) == s.take(idx) + seq![x] + s.skip(idx),
    decreases s.len(),
{
    if s.len() == 0 {
        assert(spec_insert(s, x, le) =~= s.take(idx) + seq![x] + s.skip(idx));
    } else if idx == 0 {
        assert(spec_insert(s, x, le) =~= s.take(0) + seq![x] + s.skip(0));
    } else {
        assert(le(s[0], x));
        lemma_spec_insert_at(s.skip(1), x, le, idx - 1);
        assert(s.skip(1).take(idx - 1) =~= s.take(idx).skip(1));
        assert(s.skip(1).skip(idx - 1) =~= s.skip(idx));
        assert(seq![s[0]] + (s.skip(1).take(idx - 1) + seq![x] + s.skip(1).skip(idx - 1)) =~= s.take(
            idx,
        ) + seq![x] + s.skip(idx));
    }
}

/// Membership in an insertion.
pub proof fn lemma_insert_contains(
    s: Seq<ReuseEdge>,
    x: ReuseEdge,
    le: spec_fn(ReuseEdge, ReuseEdge) -> bool,
    e: ReuseEdge,
)
    ensures
        spec_insert(s, x, le).contains(e) <==> (s.contains(e) || e == x),
    decreases s.len(),
{
    let r = spec_insert(s, x, le);
    if s.len() == 0 {
        assert(r =~= seq![x]);
        assert(r[0] == x);
        if r.contains(e) {
            let t = choose|t: int| 0 <= t < r.len() && r[t] == e;
            assert(t == 0);
        }
    } else if le(s[0], x) {
        lemma_insert_contains(s.skip(1), x, le, e);
        let rest = spec_insert(s.skip(1), x, le);
        assert(r == seq![s[0]] + rest);
        if r.contains(e) {
            let t = choose|t: int| 0 <= t < r.len() && r[t] == e;
            if t == 0 {
                assert(s[0] == e);
                assert(s.contains(e));
            } else {
                assert(rest[t - 1] == e);
                assert(rest.contains(e));
                if s.skip(1).contains(e) {
                    let u = choose|u: int| 0 <= u < s.skip(1).len() && s.skip(1)[u] == e;
                    assert(s[u + 1] == e);
                    assert(s.contains(e));
                }
            }
        }
        if s.contains(e) {
            let t = choose|t: int| 0 <= t < s.len() && s[t] == e;
            if t == 0 {
                assert(r[0] == e);
            } else {
                assert(s.skip(1)[t - 1] == e);
                assert(s.skip(1).contains(e));
                let u = choose|u: int| 0 <= u < rest.len() && rest[u] == e;
                assert(r[u + 1] == e);
            }
        }
        if e == x {
            assert(rest.contains(e));
            let u = choose|u: int| 0 <= u < rest.len() && rest[u] == e;
            assert(r[u + 1] == e);
        }
    } else {
        assert(r == seq![x] + s);
        if r.contains(e) {
            let t = choose|t: int| 0 <= t < r.len() && r[t] == e;
            if t > 0 {
                assert(s[t - 1] == e);
                assert(s.contains(e));
            }
        }
        if s.contains(e) {
            let t = choose|t: int| 0 <= t < s.len() && s[t] == e;
            assert(r[t + 1] == e);
        }
        assert(r[0] == x);
    }
}

/// Membership in a sort.
pub proof fn lemma_sort_contains(
    s: Seq<ReuseEdge>,
    le: spec_fn(ReuseEdge, ReuseEdge) -> bool,
    e: ReuseEdge,
)
    ensures
        spec_sort(s, le).contains(e) <==> s.contains(e),
    decreases s.len(),
{
    if s.len() == 0 {
    } else {
        lemma_sort_contains(s.drop_last(), le, e);
        lemma_insert_contains(spec_sort(s.drop_last(), le), s.last(), le, e);
        if s.contains(e) {
            let t = choose|t: int| 0 <= t < s.len() && s[t] == e;
            if t < s.len() - 1 {
                assert(s.drop_last()[t] == e);
                assert(s.drop_last().contains(e));
            }
        }
        if s.drop_last().contains(e) {
            let t = choose|t: int| 0 <= t < s.drop_last().len() && s.drop_last()[t] == e;
            assert(s[t] == e);
        }
        assert(s.contains(s.last()));
    }
}

/// Sorting a sorted sequence leaves it unchanged, provided the order is
/// total.
pub proof fn lemma_sort_of_sorted(s: Seq<ReuseEdge>, le: spec_fn(ReuseEdge, ReuseEdge) -> bool)
    requires
        sorted_by(s, le),
        forall|a: ReuseEdge, b: ReuseEdge| #[trigger] le(a, b) || #[trigger] le(b, a),
    ensures
        spec_sort(s, le) == s,
    decreases s.len(),
{
    if s.len() > 0 {
        lemma_sort_of_sorted(s.drop_last(), le);
        lemma_spec_insert_at(s.drop_last(), s.last(), le, s.len() - 1);
        assert(s.drop_last().take(s.len() - 1) =~= s.drop_last());
        assert(s.drop_last().skip(s.len() - 1) =~= Seq::<ReuseEdge>::empty());
        assert(s.drop_last() + seq![s.last()] + Seq::<ReuseEdge>::empty() =~= s);
    }
}

/// Check if two ranges overlap (open-interval overlap).
pub fn ranges_overlap(start_a: usize, end_a: usize, start_b: usize, end_b: usize) -> (r: bool)
    ensures
        r == (start_a < end_b && start_b < end_a),
{
    start_a < end_b && start_b < end_a
}

/// Whether two edges overlap in both their source and target ranges.
pub open spec fn spec_edges_overlap(a: ReuseEdge, b: ReuseEdge) -> bool {
    &&& a.source_global_start < b.source_global_end
    &&& b.source_global_start < a.source_global_end
    &&& a.target_global_start < b.target_global_end
    &&& b.target_global_start < a.target_global_end
}

fn edges_overlap(a: &ReuseEdge, b: &ReuseEdge) -> (r: bool)
    ensures
        r == spec_edges_overlap(*a, *b),
{
    let source_overlap = ranges_overlap(
        a.source_global_start,
        a.source_global_end,
        b.source_global_start,
        b.source_global_end,
    );
    let target_overlap = ranges_overlap(
        a.target_global_start,
        a.target_global_end,
        b.target_global_start,
        b.target_global_end,
    );
    source_overlap && target_overlap
}

/// Size of the overlap of two ranges, 0 when they are disjoint.
pub open spec fn spec_overlap_size(start_a: int, end_a: int, start_b: int, end_b: int) -> int {
    let os = if start_a >= start_b {
        start_a
    } else {
        start_b
    };
    let oe = if end_a <= end_b {
        end_a
    } else {
        end_b
    };
    if os < oe {
        oe - os
    } else {
        0
    }
}

/// Calculate the overlap size between two ranges.
pub fn calculate_overlap_size(start_a: usize, end_a: usize, start_b: usize, end_b: usize) -> (r:
    usize)
    ensures
        r == spec_overlap_size(start_a as int, end_a as int, start_b as int, end_b as int),
{
    let overlap_start = if start_a >= start_b {
        start_a
    } else {
        start_b
    };
    let overlap_end = if end_a <= end_b {
        end_a
    } else {
        end_b
    };
    if overlap_start < overlap_end {
        overlap_end - overlap_start
    } else {
        0
    }
}

pub open spec fn min_usize(a: int, b: int) -> int {
    if a <= b {
        a
    } else {
        b
    }
}

pub open spec fn max_usize(a: int, b: int) -> int {
    if a >= b {
        a
    } else {
        b
    }
}

/// Truncated per-mille rate num/den, 0 on a zero denominator.
pub open spec fn rate_permille(num: int, den: int) -> int {
    if den > 0 {
        num * 1000 / den
    } else {
        0
    }
}

/// The merge of two overlapping edges: spans are unioned, endpoint page
/// coordinates come from whichever operand contributed the extremum,
/// and counts are estimated by subtracting the left operand's per-mille
/// per-length rate over the source overlap, rounded to the nearest
/// whole count.
pub open spec fn spec_merge_two(a: ReuseEdge, b: ReuseEdge) -> ReuseEdge {
    let source_global_start = min_usize(a.source_global_start as int, b.source_global_start as int);
    let source_global_end = max_usize(a.source_global_end as int, b.source_global_end as int);
    let target_global_start = min_usize(a.target_global_start as int, b.target_global_start as int);
    let target_global_end = max_usize(a.target_global_end as int, b.target_global_end as int);
    let aligned_length = (source_global_end - source_global_start) as u32;
    let overlap_source = spec_overlap_size(
        a.source_global_start as int,
        a.source_global_end as int,
        b.source_global_start as int,
        b.source_global_end as int,
    );
    let overlap_matches = (overlap_source * a.lemma_similarity + 500) / 1000;
    let combined_matches = a.lemma_matches + b.lemma_matches;
    let lemma_matches = (if combined_matches >= overlap_matches {
        combined_matches - overlap_matches
    } else {
        0int
    }) as u32;
    let overlap_subs = if a.aligned_length > 0 {
        (overlap_source * (1000 * a.substitutions / (a.aligned_length as int)) + 500) / 1000
    } else {
        0int
    };
    let combined_subs = a.substitutions + b.substitutions;
    let substitutions = (if combined_subs >= overlap_subs {
        combined_subs - overlap_subs
    } else {
        0int
    }) as u32;
    let overlap_root_only = if a.aligned_length > 0 {
        (overlap_source * (1000 * a.root_only_matches / (a.aligned_length as int)) + 500) / 1000
    } else {
        0int
    };
    let combined_root_only = a.root_only_matches + b.root_only_matches;
    let root_only_matches = (if combined_root_only >= overlap_root_only {
        combined_root_only - overlap_root_only
    } else {
        0int
    }) as u32;
    let gaps = ((a.gaps + b.gaps) / 2) as u32;
    let match_sub_total = lemma_matches + substitutions;
    let core_similarity = rate_permille(lemma_matches as int, match_sub_total as int) as u32;
    let span_coverage = rate_permille(match_sub_total as int, aligned_length as int) as u32;
    let content_weight = ((a.content_weight + b.content_weight) / 2) as u32;
    let lemma_similarity = rate_permille(lemma_matches as int, aligned_length as int) as u32;
    let combined_similarity = (if aligned_length > 0 {
        (1000 * lemma_matches + 500 * root_only_matches) / (aligned_length as int)
    } else {
        0int
    }) as u32;
    ReuseEdge {
        id: a.id,
        source_book_id: a.source_book_id,
        source_start_page: if a.source_global_start <= b.source_global_start {
            a.source_start_page
        } else {
            b.source_start_page
        },
        source_start_offset: if a.source_global_start <= b.source_global_start {
            a.source_start_offset
        } else {
            b.source_start_offset
        },
        source_end_page: if a.source_global_end >= b.source_global_end {
            a.source_end_page
        } else {
            b.source_end_page
        },
        source_end_offset: if a.source_global_end >= b.source_global_end {
            a.source_end_offset
        } else {
            b.source_end_offset
        },
        source_global_start: source_global_start as usize,
        source_global_end: source_global_end as usize,
        target_book_id: a.target_book_id,
        target_start_page: if a.target_global_start <= b.target_global_start {
            a.target_start_page
        } else {
            b.target_start_page
        },
        target_start_offset: if a.target_global_start <= b.target_global_start {
            a.target_start_offset
        } else {
            b.target_start_offset
        },
        target_end_page: if a.target_global_end >= b.target_global_end {
            a.target_end_page
        } else {
            b.target_end_page
        },
        target_end_offset: if a.target_global_end >= b.target_global_end {
            a.target_end_offset
        } else {
            b.target_end_offset
        },
        target_global_start: target_global_start as usize,
        target_global_end: target_global_end as usize,
        aligned_length,
        lemma_matches,
        substitutions,
        root_only_matches,
        gaps,
        core_similarity,
        span_coverage,
        content_weight,
        lemma_similarity,
        combined_similarity,
        weighted_similarity: ((a.weighted_similarity + b.weighted_similarity) / 2) as u32,
        avg_match_weight: content_weight,
    }
}

/// Merge two overlapping edges into one.
fn merge_two_edges(a: &ReuseEdge, b: &ReuseEdge) -> (r: ReuseEdge)
    requires
        edge_wf(*a),
        edge_wf(*b),
    ensures
        r == spec_merge_two(*a, *b),
        edge_wf(r),
{
    let source_global_start = if a.source_global_start <= b.source_global_start {
        a.source_global_start
    } else {
        b.source_global_start
    };
    let source_global_end = if a.source_global_end >= b.source_global_end {
        a.source_global_end
    } else {
        b.source_global_end
    };
    let target_global_start = if a.target_global_start <= b.target_global_start {
        a.target_global_start
    } else {
        b.target_global_start
    };
    let target_global_end = if a.target_global_end >= b.target_global_end {
        a.target_global_end
    } else {
        b.target_global_end
    };
    let (source_start_page, source_start_offset) = if a.source_global_start
        <= b.source_global_start {
        (a.source_start_page, a.source_start_offset)
    } else {
        (b.source_start_page, b.source_start_offset)
    };
    let (source_end_page, source_end_offset) = if a.source_global_end >= b.source_global_end {
        (a.source_end_page, a.source_end_offset)
    } else {
        (b.source_end_page, b.source_end_offset)
    };
    let (target_start_page, target_start_offset) = if a.target_global_start
        <= b.target_global_start {
        (a.target_start_page, a.target_start_offset)
    } else {
        (b.target_start_page, b.target_start_offset)
    };
    let (target_end_page, target_end_offset) = if a.target_global_end >= b.target_global_end {
        (a.target_end_page, a.target_end_offset)
    } else {
        (b.target_end_page, b.target_end_offset)
    };

    let aligned_length = (source_global_end - source_global_start) as u32;

    let overlap_source = calculate_overlap_size(
        a.source_global_start,
        a.source_global_end,
        b.source_global_start,
        b.source_global_end,
    ) as u64;

    let combined_matches = a.lemma_matches as u64 + b.lemma_matches as u64;
    proof {
        assert((overlap_source as int) * (a.lemma_similarity as int) < 0x4000_0000_0000_0000)
            by (nonlinear_arith)
            requires
                0 <= (overlap_source as int) < 0x4000_0000,
                0 <= (a.lemma_similarity as int) < 0x1_0000_0000;
    }
    let overlap_matches = (overlap_source * (a.lemma_similarity as u64) + 500) / 1000;
    let lemma_matches = #[verifier::truncate] ((if combined_matches >= overlap_matches {
        combined_matches - overlap_matches
    } else {
        0
    }) as u32);

    let combined_subs = a.substitutions as u64 + b.substitutions as u64;
    let overlap_subs: u128 = if a.aligned_length > 0 {
        let rate = (1000 * a.substitutions as u64) / (a.aligned_length as u64);
        proof {
            assert((overlap_source as int) * (rate as int)
                < 0x4000_0000_0000_0000_0000_0000_0000) by (nonlinear_arith)
                requires
                    0 <= (overlap_source as int) < 0x4000_0000,
                    0 <= (rate as int) < 0x1_0000_0000_0000_0000;
        }
        ((overlap_source as u128) * (rate as u128) + 500) / 1000
    } else {
        0
    };
    let substitutions = #[verifier::truncate] ((if combined_subs as u128 >= overlap_subs {
        combined_subs as u128 - overlap_subs
    } else {
        0
    }) as u32);

    let combined_root_only = a.root_only_matches as u64 + b.root_only_matches as u64;
    let overlap_root_only: u128 = if a.aligned_length > 0 {
        let rate = (1000 * a.root_only_matches as u64) / (a.aligned_length as u64);
        proof {
            assert((overlap_source as int) * (rate as int)
                < 0x4000_0000_0000_0000_0000_0000_0000) by (nonlinear_arith)
                requires
                    0 <= (overlap_source as int) < 0x4000_0000,
                    0 <= (rate as int) < 0x1_0000_0000_0000_0000;
        }
        ((overlap_source as u128) * (rate as u128) + 500) / 1000
    } else {
        0
    };
    let root_only_matches = #[verifier::truncate] ((if combined_root_only as u128
        >= overlap_root_only {
        combined_root_only as u128 - overlap_root_only
    } else {
        0
    }) as u32);

    let gaps = #[verifier::truncate] (((a.gaps as u64 + b.gaps as u64) / 2) as u32);

    let match_sub_total = lemma_matches as u64 + substitutions as u64;
    let core_similarity = #[verifier::truncate] ((if match_sub_total > 0 {
        (lemma_matches as u64) * 1000 / match_sub_total
    } else {
        0
    }) as u32);
    let span_coverage = #[verifier::truncate] ((if aligned_length > 0 {
        match_sub_total * 1000 / (aligned_length as u64)
    } else {
        0
    }) as u32);
    let content_weight = #[verifier::truncate] (((a.content_weight as u64 + b.content_weight
        as u64) / 2) as u32);
    let lemma_similarity = #[verifier::truncate] ((if aligned_length > 0 {
        (lemma_matches as u64) * 1000 / (aligned_length as u64)
    } else {
        0
    }) as u32);
    let combined_similarity = #[verifier::truncate] ((if aligned_length > 0 {
        (1000 * lemma_matches as u64 + 500 * root_only_matches as u64) / (aligned_length as u64)
    } else {
        0
    }) as u32);
    let weighted_similarity = #[verifier::truncate] (((a.weighted_similarity as u64
        + b.weighted_similarity as u64) / 2) as u32);

    ReuseEdge {
        id: a.id,
        source_book_id: a.source_book_id,
        source_start_page,
        source_start_offset,
        source_end_page,
        source_end_offset,
        source_global_start,
        source_global_end,
        target_book_id: a.target_book_id,
        target_start_page,
        target_start_offset,
        target_end_page,
        target_end_offset,
        target_global_start,
        target_global_end,
        aligned_length,
        lemma_matches,
        substitutions,
        root_only_matches,
        gaps,
        core_similarity,
        span_coverage,
        content_weight,
        lemma_similarity,
        combined_similarity,
        weighted_similarity,
        avg_match_weight: content_weight,
    }
}

/// Whether the sweep folds edge e into the accumulator's last edge.
pub open spec fn sweep_merges(last: ReuseEdge, e: ReuseEdge) -> bool {
    last.source_book_id == e.source_book_id && last.target_book_id == e.target_book_id
        && spec_edges_overlap(last, e)
}

/// Left-to-right sweep: each edge merges into the last retained edge
/// while both ranges overlap, else starts a new group.
pub open spec fn spec_sweep(s: Seq<ReuseEdge>) -> Seq<ReuseEdge>
    decreases s.len(),
{
    if s.len() == 0 {
        Seq::empty()
    } else {
        let prev = spec_sweep(s.drop_last());
        let e = s.last();
        if prev.len() > 0 && sweep_merges(prev.last(), e) {
            prev.update(prev.len() - 1, spec_merge_two(prev.last(), e))
        } else {
            prev.push(e)
        }
    }
}

/// The merge-key order as a function value.
pub open spec fn merge_le() -> spec_fn(ReuseEdge, ReuseEdge) -> bool {
    |a: ReuseEdge, b: ReuseEdge| merge_key_le(a, b)
}

/// The position-key order as a function value.
pub open spec fn pos_le() -> spec_fn(ReuseEdge, ReuseEdge) -> bool {
    |a: ReuseEdge, b: ReuseEdge| pos_key_le(a, b)
}

/// The descending-length order as a function value.
pub open spec fn len_desc() -> spec_fn(ReuseEdge, ReuseEdge) -> bool {
    |a: ReuseEdge, b: ReuseEdge| len_desc_le(a, b)
}

/// The whole overlap merge: sort by the merge key, then sweep. Lists of
/// at most one edge come back unchanged.
pub open spec fn spec_merge_overlapping(s: Seq<ReuseEdge>) -> Seq<ReuseEdge> {
    if s.len() <= 1 {
        s
    } else {
        spec_sweep(spec_sort(s, merge_le()))
    }
}


/// Exec comparison by the merge key.
fn merge_key_le_exec(a: &ReuseEdge, b: &ReuseEdge) -> (r: bool)
    ensures
        r == merge_le()(*a, *b),
{
    a.source_book_id < b.source_book_id || (a.source_book_id == b.source_book_id && (
    b.target_book_id > a.target_book_id || (a.target_book_id == b.target_book_id && (
    a.source_global_start < b.source_global_start || (a.source_global_start
        == b.source_global_start && a.target_global_start <= b.target_global_start)))))
}

/// Exec comparison by the position key.
fn pos_key_le_exec(a: &ReuseEdge, b: &ReuseEdge) -> (r: bool)
    ensures
        r == pos_le()(*a, *b),
{
    a.source_book_id < b.source_book_id || (a.source_book_id == b.source_book_id && (
    b.target_book_id > a.target_book_id || (a.target_book_id == b.target_book_id
        && a.source_global_start <= b.source_global_start)))
}

/// Exec comparison by descending aligned length.
fn len_desc_le_exec(a: &ReuseEdge, b: &ReuseEdge) -> (r: bool)
    ensures
        r == len_desc()(*a, *b),
{
    a.aligned_length >= b.aligned_length
}

/// Stable insertion sort by the merge key.
#[verifier::loop_isolation(false)]
fn sort_edges_merge_key(edges: Vec<ReuseEdge>) -> (r: Vec<ReuseEdge>)
    ensures
        r@ == spec_sort(edges@, merge_le()),
        r@.len() == edges@.len(),
{
    let ghost le = merge_le();
    let mut r: Vec<ReuseEdge> = Vec::new();
    let mut k: usize = 0;
    while k < edges.len()
        invariant
            k <= edges@.len(),
            r@ == spec_sort(edges@.take(k as int), le),
            r@.len() == k,
        decreases edges@.len() - k,
    {
        let x = edges[k].clone();
        let mut idx: usize = 0;
        let mut scanning = true;
        while scanning
            invariant
                idx <= r@.len(),
                forall|t: int| 0 <= t < idx ==> le(#[trigger] r@[t], x),
                !scanning ==> (idx == r@.len() || !le(r@[idx as int], x)),
            decreases r@.len() - idx + (if scanning {
                1int
            } else {
                0int
            }),
        {
            if idx < r.len() {
                if merge_key_le_exec(&r[idx], &x) {
                    idx = idx + 1;
                } else {
                    scanning = false;
                }
            } else {
                scanning = false;
            }
        }
        let ghost prev = r@;
        proof {
            lemma_spec_insert_at(prev, x, le, idx as int);
            assert(edges@.take(k + 1).drop_last() =~= edges@.take(k as int));
            assert(edges@.take(k + 1).last() == edges@[k as int]);
        }
        r.insert(idx, x);
        proof {
            assert(r@ =~= prev.take(idx as int) + seq![x] + prev.skip(idx as int));
        }
        k = k + 1;
    }
    proof {
        assert(edges@.take(edges@.len() as int) =~= edges@);
    }
    r
}

/// Stable insertion sort by the position key.
#[verifier::loop_isolation(false)]
fn sort_edges_pos_key(edges: Vec<ReuseEdge>) -> (r: Vec<ReuseEdge>)
    ensures
        r@ == spec_sort(edges@, pos_le()),
{
    let ghost le = pos_le();
    let mut r: Vec<ReuseEdge> = Vec::new();
    let mut k: usize = 0;
    while k < edges.len()
        invariant
            k <= edges@.len(),
            r@ == spec_sort(edges@.take(k as int), le),
            r@.len() == k,
        decreases edges@.len() - k,
    {
        let x = edges[k].clone();
        let mut idx: usize = 0;
        let mut scanning = true;
        while scanning
            invariant
                idx <= r@.len(),
                forall|t: int| 0 <= t < idx ==> le(#[trigger] r@[t], x),
                !scanning ==> (idx == r@.len() || !le(r@[idx as int], x)),
            decreases r@.len() - idx + (if scanning {
                1int
            } else {
                0int
            }),
        {
            if idx < r.len() {
                if pos_key_le_exec(&r[idx], &x) {
                    idx = idx + 1;
                } else {
                    scanning = false;
                }
            } else {
                scanning = false;
            }
        }
        let ghost prev = r@;
        proof {
            lemma_spec_insert_at(prev, x, le, idx as int);
            assert(edges@.take(k + 1).drop_last() =~= edges@.take(k as int));
            assert(edges@.take(k + 1).last() == edges@[k as int]);
        }
        r.insert(idx, x);
        proof {
            assert(r@ =~= prev.take(idx as int) + seq![x] + prev.skip(idx as int));
        }
        k = k + 1;
    }
    proof {
        assert(edges@.take(edges@.len() as int) =~= edges@);
    }
    r
}

/// Stable insertion sort by descending aligned length.
#[verifier::loop_isolation(false)]
fn sort_edges_len_desc(edges: Vec<ReuseEdge>) -> (r: Vec<ReuseEdge>)
    ensures
        r@ == spec_sort(edges@, len_desc()),
{
    let ghost le = len_desc();
    let mut r: Vec<ReuseEdge> = Vec::new();
    let mut k: usize = 0;
    while k < edges.len()
        invariant
            k <= edges@.len(),
            r@ == spec_sort(edges@.take(k as int), le),
            r@.len() == k,
        decreases edges@.len() - k,
    {
        let x = edges[k].clone();
        let mut idx: usize = 0;
        let mut scanning = true;
        while scanning
            invariant
                idx <= r@.len(),
                forall|t: int| 0 <= t < idx ==> le(#[trigger] r@[t], x),
                !scanning ==> (idx == r@.len() || !le(r@[idx as int], x)),
            decreases r@.len() - idx + (if scanning {
                1int
            } else {
                0int
            }),
        {
            if idx < r.len() {
                if len_desc_le_exec(&r[idx], &x) {
                    idx = idx + 1;
                } else {
                    scanning = false;
                }
            } else {
                scanning = false;
            }
        }
        let ghost prev = r@;
        proof {
            lemma_spec_insert_at(prev, x, le, idx as int);
            assert(edges@.take(k + 1).drop_last() =~= edges@.take(k as int));
            assert(edges@.take(k + 1).last() == edges@[k as int]);
        }
        r.insert(idx, x);
        proof {
            assert(r@ =~= prev.take(idx as int) + seq![x] + prev.skip(idx as int));
        }
        k = k + 1;
    }
    proof {
        assert(edges@.take(edges@.len() as int) =~= edges@);
    }
    r
}

/// A sorted permutation keeps well-formedness of every edge.
pub proof fn lemma_sorted_edges_wf(
    s: Seq<ReuseEdge>,
    sorted: Seq<ReuseEdge>,
    le: spec_fn(ReuseEdge, ReuseEdge) -> bool,
)
    requires
        edges_wf(s),
        sorted == spec_sort(s, le),
    ensures
        edges_wf(sorted),
{
    assert forall|i: int| 0 <= i < sorted.len() implies edge_wf(#[trigger] sorted[i]) by {
        assert(sorted.contains(sorted[i]));
        lemma_sort_contains(s, le, sorted[i]);
        let t = choose|t: int| 0 <= t < s.len() && s[t] == sorted[i];
        assert(edge_wf(s[t]));
    }
}

/// Merge overlapping edges into maximal spans: sort by the merge key,
/// then sweep, folding each edge into the last retained one while both
/// the source and the target ranges overlap.
#[verifier::loop_isolation(false)]
pub fn merge_overlapping_edges(edges: Vec<ReuseEdge>) -> (r: Vec<ReuseEdge>)
    requires
        edges_wf(edges@),
    ensures
        r@ == spec_merge_overlapping(edges@),
        edges_wf(r@),
        r@.len() <= edges@.len(),
{
    if edges.len() <= 1 {
        return edges;
    }
    let ghost input = edges@;
    let sorted = sort_edges_merge_key(edges);
    proof {
        lemma_sorted_edges_wf(input, sorted@, merge_le());
    }
    let ghost sv = sorted@;

    let mut merged: Vec<ReuseEdge> = Vec::new();
    let mut k: usize = 0;
    while k < sorted.len()
        invariant
            k <= sv.len(),
            merged@ == spec_sweep(sv.take(k as int)),
            edges_wf(merged@),
            merged@.len() <= k,
        decreases sv.len() - k,
    {
        proof {
            assert(sv.take(k + 1).drop_last() =~= sv.take(k as int));
            assert(sv.take(k + 1).last() == sv[k as int]);
        }
        let e = sorted[k].clone();
        let mut should_merge = false;
        if merged.len() > 0 {
            let last = &merged[merged.len() - 1];
            if last.source_book_id == e.source_book_id && last.target_book_id == e.target_book_id {
                should_merge = edges_overlap(last, &e);
            }
        }
        if should_merge {
            let li = merged.len() - 1;
            let ghost prev = merged@;
            let m2 = merge_two_edges(&merged[li], &e);
            merged.set(li, m2);
            proof {
                assert(merged@ =~= prev.update(prev.len() - 1, spec_merge_two(
                    prev.last(),
                    sv[k as int],
                )));
            }
        } else {
            merged.push(e);
        }
        k = k + 1;
    }
    proof {
        assert(sv.take(sv.len() as int) =~= sv);
    }
    merged
}

/// Gap between two edges on source and target; 0 when they overlap.
pub open spec fn spec_gap(start_a: int, end_a: int, start_b: int, end_b: int) -> int {
    if start_b >= end_a {
        start_b - end_a
    } else if start_a >= end_b {
        start_a - end_b
    } else {
        0
    }
}

/// Whether two edges sit within max_gap of each other on both sides.
pub open spec fn spec_edges_adjacent(a: ReuseEdge, b: ReuseEdge, max_gap: int) -> bool {
    spec_gap(
        a.source_global_start as int,
        a.source_global_end as int,
        b.source_global_start as int,
        b.source_global_end as int,
    ) <= max_gap && spec_gap(
        a.target_global_start as int,
        a.target_global_end as int,
        b.target_global_start as int,
        b.target_global_end as int,
    ) <= max_gap
}

fn edges_adjacent(a: &ReuseEdge, b: &ReuseEdge, max_gap: usize) -> (r: bool)
    ensures
        r == spec_edges_adjacent(*a, *b, max_gap as int),
{
    let source_gap = if b.source_global_start >= a.source_global_end {
        b.source_global_start - a.source_global_end
    } else if a.source_global_start >= b.source_global_end {
        a.source_global_start - b.source_global_end
    } else {
        0
    };
    let target_gap = if b.target_global_start >= a.target_global_end {
        b.target_global_start - a.target_global_end
    } else if a.target_global_start >= b.target_global_end {
        a.target_global_start - b.target_global_end
    } else {
        0
    };
    source_gap <= max_gap && target_gap <= max_gap
}

/// Whether the adjacency sweep folds edge e into the last retained one.
pub open spec fn adjacent_merges(last: ReuseEdge, e: ReuseEdge, max_gap: int) -> bool {
    last.source_book_id == e.source_book_id && last.target_book_id == e.target_book_id
        && spec_edges_adjacent(last, e, max_gap)
}

/// Sweep for the adjacency merge.
pub open spec fn spec_sweep_adjacent(s: Seq<ReuseEdge>, max_gap: int) -> Seq<ReuseEdge>
    decreases s.len(),
{
    if s.len() == 0 {
        Seq::empty()
    } else {
        let prev = spec_sweep_adjacent(s.drop_last(), max_gap);
        let e = s.last();
        if prev.len() > 0 && adjacent_merges(prev.last(), e, max_gap) {
            prev.update(prev.len() - 1, spec_merge_two(prev.last(), e))
        } else {
            prev.push(e)
        }
    }
}

/// The whole adjacency merge: sort by the position key, then sweep.
pub open spec fn spec_merge_adjacent(s: Seq<ReuseEdge>, max_gap: int) -> Seq<ReuseEdge> {
    if s.len() <= 1 {
        s
    } else {
        spec_sweep_adjacent(spec_sort(s, pos_le()), max_gap)
    }
}

/// Merge edges that lie within max_gap tokens of each other on both the
/// source and the target side.
#[verifier::loop_isolation(false)]
pub fn merge_adjacent_edges(edges: Vec<ReuseEdge>, max_gap: usize) -> (r: Vec<ReuseEdge>)
    requires
        edges_wf(edges@),
    ensures
        r@ == spec_merge_adjacent(edges@, max_gap as int),
        edges_wf(r@),
{
    if edges.len() <= 1 {
        return edges;
    }
    let ghost input = edges@;
    let sorted = sort_edges_pos_key(edges);
    proof {
        lemma_sorted_edges_wf(input, sorted@, pos_le());
    }
    let ghost sv = sorted@;

    let mut merged: Vec<ReuseEdge> = Vec::new();
    let mut k: usize = 0;
    while k < sorted.len()
        invariant
            k <= sv.len(),
            merged@ == spec_sweep_adjacent(sv.take(k as int), max_gap as int),
            edges_wf(merged@),
        decreases sv.len() - k,
    {
        proof {
            assert(sv.take(k + 1).drop_last() =~= sv.take(k as int));
            assert(sv.take(k + 1).last() == sv[k as int]);
        }
        let e = sorted[k].clone();
        let mut should_merge = false;
        if merged.len() > 0 {
            let last = &merged[merged.len() - 1];
            if last.source_book_id == e.source_book_id && last.target_book_id == e.target_book_id {
                should_merge = edges_adjacent(last, &e, max_gap);
            }
        }
        if should_merge {
            let li = merged.len() - 1;
            let ghost prev = merged@;
            let m2 = merge_two_edges(&merged[li], &e);
            merged.set(li, m2);
            proof {
                assert(merged@ =~= prev.update(prev.len() - 1, spec_merge_two(
                    prev.last(),
                    sv[k as int],
                )));
            }
        } else {
            merged.push(e);
        }
        k = k + 1;
    }
    proof {
        assert(sv.take(sv.len() as int) =~= sv);
    }
    merged
}

/// Whether inner's source and target ranges are contained in outer's,
/// on the same book pair.
pub open spec fn spec_contained(inner: ReuseEdge, outer: ReuseEdge) -> bool {
    &&& outer.source_book_id == inner.source_book_id
    &&& outer.target_book_id == inner.target_book_id
    &&& outer.source_global_start <= inner.source_global_start
    &&& outer.source_global_end >= inner.source_global_end
    &&& outer.target_global_start <= inner.target_global_start
    &&& outer.target_global_end >= inner.target_global_end
}

/// Whether some retained edge contains e.
pub open spec fn subsumed_in(retained: Seq<ReuseEdge>, e: ReuseEdge) -> bool {
    exists|t: int| 0 <= t < retained.len() && spec_contained(e, #[trigger] retained[t])
}

/// Keep each edge unless an already-retained edge contains it.
pub open spec fn spec_retain(s: Seq<ReuseEdge>) -> Seq<ReuseEdge>
    decreases s.len(),
{
    if s.len() == 0 {
        Seq::empty()
    } else {
        let p = spec_retain(s.drop_last());
        if subsumed_in(p, s.last()) {
            p
        } else {
            p.push(s.last())
        }
    }
}

/// The whole subsumption filter: sort by descending aligned length,
/// retain the maximal edges, then re-sort by position.
pub open spec fn spec_remove_subsumed(s: Seq<ReuseEdge>) -> Seq<ReuseEdge> {
    if s.len() <= 1 {
        s
    } else {
        spec_sort(spec_retain(spec_sort(s, len_desc())), pos_le())
    }
}

/// Retained edges come from the input.
pub proof fn lemma_retain_contains(s: Seq<ReuseEdge>, e: ReuseEdge)
    ensures
        spec_retain(s).contains(e) ==> s.contains(e),
    decreases s.len(),
{
    if s.len() > 0 {
        lemma_retain_contains(s.drop_last(), e);
        let p = spec_retain(s.drop_last());
        if spec_retain(s).contains(e) {
            if !subsumed_in(p, s.last()) {
                let t = choose|t: int| 0 <= t < p.push(s.last()).len() && p.push(s.last())[t] == e;
                if t < p.len() {
                    assert(p[t] == e);
                    assert(p.contains(e));
                    let u = choose|u: int| 0 <= u < s.drop_last().len() && s.drop_last()[u] == e;
                    assert(s[u] == e);
                } else {
                    assert(s.last() == e);
                    assert(s[s.len() - 1] == e);
                }
            } else {
                let u = choose|u: int| 0 <= u < s.drop_last().len() && s.drop_last()[u] == e;
                assert(s[u] == e);
            }
        }
    }
}

/// No retained edge is contained in another retained edge in both
/// directions: containment among distinct retained edges is one-way.
pub open spec fn mutual_containment_free(s: Seq<ReuseEdge>) -> bool {
    forall|i: int, j: int| 0 <= i < s.len() && 0 <= j < s.len() && i != j ==> !(spec_contained(
        #[trigger] s[i],
        #[trigger] s[j],
    ) && spec_contained(s[j], s[i]))
}

pub proof fn lemma_retain_mutual_free(s: Seq<ReuseEdge>)
    ensures
        forall|i: int, j: int| 0 <= i < j < spec_retain(s).len() ==> !spec_contained(
            #[trigger] spec_retain(s)[j],
            #[trigger] spec_retain(s)[i],
        ),
        mutual_containment_free(spec_retain(s)),
    decreases s.len(),
{
    if s.len() > 0 {
        lemma_retain_mutual_free(s.drop_last());
        let p = spec_retain(s.drop_last());
        let r = spec_retain(s);
        if !subsumed_in(p, s.last()) {
            assert forall|i: int, j: int| 0 <= i < j < r.len() implies !spec_contained(
                #[trigger] r[j],
                #[trigger] r[i],
            ) by {
                if j == r.len() - 1 {
                    assert(r[j] == s.last());
                    assert(r[i] == p[i]);
                    assert(!spec_contained(s.last(), p[i]));
                } else {
                    assert(r[i] == p[i] && r[j] == p[j]);
                }
            }
        }
    }
}

/// Filter out edges whose source and target ranges are both contained
/// in an already-retained edge of the same book pair. Larger edges are
/// considered first; the result is re-sorted by position. Among the
/// returned edges, containment is antisymmetric: two retained edges
/// that contain each other are the same edge.
#[verifier::loop_isolation(false)]
pub fn remove_subsumed_edges(edges: Vec<ReuseEdge>) -> (r: Vec<ReuseEdge>)
    ensures
        r@ == spec_remove_subsumed(edges@),
        forall|e: ReuseEdge| r@.contains(e) ==> edges@.contains(e),
        forall|e1: ReuseEdge, e2: ReuseEdge| r@.contains(e1) && r@.contains(e2) && spec_contained(
            e1,
            e2,
        ) && spec_contained(e2, e1) ==> e1 == e2,
{
    if edges.len() <= 1 {
        proof {
            assert forall|e1: ReuseEdge, e2: ReuseEdge| edges@.contains(e1) && edges@.contains(e2)
                && spec_contained(e1, e2) && spec_contained(e2, e1) implies e1 == e2 by {
                let t1 = choose|t: int| 0 <= t < edges@.len() && edges@[t] == e1;
                let t2 = choose|t: int| 0 <= t < edges@.len() && edges@[t] == e2;
                assert(t1 == 0 && t2 == 0);
            }
        }
        return edges;
    }
    let ghost input = edges@;
    let sorted = sort_edges_len_desc(edges);
    let ghost sv = sorted@;

    let mut retained: Vec<ReuseEdge> = Vec::new();
    let mut k: usize = 0;
    while k < sorted.len()
        invariant
            k <= sv.len(),
            retained@ == spec_retain(sv.take(k as int)),
        decreases sv.len() - k,
    {
        proof {
            assert(sv.take(k + 1).drop_last() =~= sv.take(k as int));
            assert(sv.take(k + 1).last() == sv[k as int]);
        }
        let e = sorted[k].clone();
        let mut is_subsumed = false;
        let mut t: usize = 0;
        while t < retained.len()
            invariant
                t <= retained@.len(),
                is_subsumed == exists|u: int| 0 <= u < t && spec_contained(
                    e,
                    #[trigger] retained@[u],
                ),
            decreases retained@.len() - t,
        {
            let ex = &retained[t];
            if !is_subsumed && ex.source_book_id == e.source_book_id && ex.target_book_id
                == e.target_book_id && ex.source_global_start <= e.source_global_start
                && ex.source_global_end >= e.source_global_end && ex.target_global_start
                <= e.target_global_start && ex.target_global_end >= e.target_global_end {
                is_subsumed = true;
                proof {
                    assert(spec_contained(e, retained@[t as int]));
                }
            }
            t = t + 1;
        }
        proof {
            assert(is_subsumed == subsumed_in(retained@, e));
        }
        if !is_subsumed {
            retained.push(e);
        }
        k = k + 1;
    }
    proof {
        assert(sv.take(sv.len() as int) =~= sv);
    }
    let ghost rv = retained@;
    let r = sort_edges_pos_key(retained);
    proof {
        lemma_retain_mutual_free(sv);
        assert forall|e: ReuseEdge| r@.contains(e) implies input.contains(e) by {
            lemma_sort_contains(rv, pos_le(), e);
            lemma_retain_contains(sv, e);
            lemma_sort_contains(input, len_desc(), e);
        }
        assert forall|e1: ReuseEdge, e2: ReuseEdge| r@.contains(e1) && r@.contains(e2)
            && spec_contained(e1, e2) && spec_contained(e2, e1) implies e1 == e2 by {
            lemma_sort_contains(rv, pos_le(), e1);
            lemma_sort_contains(rv, pos_le(), e2);
            let t1 = choose|t: int| 0 <= t < rv.len() && rv[t] == e1;
            let t2 = choose|t: int| 0 <= t < rv.len() && rv[t] == e2;
            if t1 != t2 {
                assert(!(spec_contained(rv[t1], rv[t2]) && spec_contained(rv[t2], rv[t1])));
            }
        }
    }
    r
}

/// Consecutive edges never trigger the overlap sweep.
pub open spec fn consecutive_nonmerging(s: Seq<ReuseEdge>) -> bool {
    forall|k: int| 0 <= k < s.len() - 1 ==> !sweep_merges(#[trigger] s[k], s[k + 1])
}

/// A sweep over a list whose consecutive edges never merge is the
/// identity.
pub proof fn lemma_sweep_of_nonmerging(s: Seq<ReuseEdge>)
    requires
        consecutive_nonmerging(s),
    ensures
        spec_sweep(s) == s,
    decreases s.len(),
{
    if s.len() > 0 {
        assert(consecutive_nonmerging(s.drop_last())) by {
            assert(forall|k: int| 0 <= k < s.drop_last().len() - 1 ==> s.drop_last()[k] == s[k]
                && #[trigger] s.drop_last()[k + 1] == s[k + 1]);
        }
        lemma_sweep_of_nonmerging(s.drop_last());
        if s.len() >= 2 {
            assert(spec_sweep(s.drop_last()).last() == s[s.len() - 2]);
            assert(!sweep_merges(s[s.len() - 2], s[s.len() - 1]));
        }
        assert(spec_sweep(s) =~= s);
    }
}

/// The overlap merge is idempotent: a run of the merge on an output of
/// the merge is a fixed point, on every output that is sorted by the
/// merge key and whose adjacent retained edges stayed disjoint (a
/// merged span that has grown into its predecessor can break both).
pub proof fn lemma_overlap_merge_fixed_point(edges: Seq<ReuseEdge>)
    requires
        sorted_by(edges, merge_le()),
        consecutive_nonmerging(edges),
    ensures
        spec_merge_overlapping(edges) == edges,
{
    if edges.len() <= 1 {
    } else {
        assert(forall|a: ReuseEdge, b: ReuseEdge| #[trigger] merge_le()(a, b)
            || #[trigger] merge_le()(b, a));
        lemma_sort_of_sorted(edges, merge_le());
        lemma_sweep_of_nonmerging(edges);
    }
}

} // verus!