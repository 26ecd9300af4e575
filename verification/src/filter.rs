//! N-gram shingling and candidate pair filtering.
//!
//! A shingle is an ordered tuple of n consecutive lemma ids. A pair of
//! windows becomes an alignment candidate when the number of distinct
//! shingles they share reaches the configured bound; brute-force mode
//! emits the full cartesian product instead.

use vstd::prelude::*;

use crate::models::{ComparisonParams, Window};

verus! {

/// The shingle starting at position i: n consecutive lemma ids.
pub open spec fn shingle_at(s: Seq<u32>, n: int, i: int) -> Seq<u32> {
    s.subrange(i, i + n)
}

/// The id sequences held by a vector of id vectors.
pub open spec fn views_of(s: Seq<Vec<u32>>) -> Seq<Seq<u32>> {
    Seq::new(s.len(), |i: int| s[i]@)
}

/// All shingles of s in positional order; empty when s is shorter than
/// a shingle or n is 0.
pub open spec fn spec_shingles(s: Seq<u32>, n: int) -> Seq<Seq<u32>> {
    if n >= 1 && s.len() >= n {
        Seq::new((s.len() - n + 1) as nat, |i: int| shingle_at(s, n, i))
    } else {
        Seq::empty()
    }
}

/// First-occurrence deduplication of a sequence.
pub open spec fn spec_dedup(s: Seq<Seq<u32>>) -> Seq<Seq<u32>>
    decreases s.len(),
{
    if s.len() == 0 {
        Seq::empty()
    } else {
        let p = spec_dedup(s.drop_last());
        if p.contains(s.last()) {
            p
        } else {
            p.push(s.last())
        }
    }
}

/// Count of the elements of list that occur in pool.
pub open spec fn count_in(list: Seq<Seq<u32>>, pool: Seq<Seq<u32>>) -> int
    decreases list.len(),
{
    if list.len() == 0 {
        0
    } else {
        count_in(list.drop_last(), pool) + if pool.contains(list.last()) {
            1int
        } else {
            0int
        }
    }
}

/// Distinct shingles shared by two lemma sequences.
pub open spec fn shared_count(a: Seq<u32>, b: Seq<u32>, n: int) -> int {
    count_in(spec_dedup(spec_shingles(a, n)), spec_shingles(b, n))
}

/// Whether a window pair is a candidate under the given parameters.
pub open spec fn is_candidate(
    wa: Seq<Window>,
    wb: Seq<Window>,
    params: ComparisonParams,
    x: int,
    y: int,
) -> bool {
    &&& 0 <= x < wa.len()
    &&& 0 <= y < wb.len()
    &&& (params.brute_force || shared_count(
        wa[x].lemma_ids@,
        wb[y].lemma_ids@,
        params.ngram_size as int,
    ) >= params.min_shared_shingles)
}

/// Candidates of one row, in ascending window-b order.
pub open spec fn spec_cands_row(
    wa: Seq<Window>,
    wb: Seq<Window>,
    params: ComparisonParams,
    x: int,
    y: nat,
) -> Seq<(usize, usize)>
    decreases y,
{
    if y == 0 {
        Seq::empty()
    } else {
        spec_cands_row(wa, wb, params, x, (y - 1) as nat) + if is_candidate(
            wa,
            wb,
            params,
            x,
            y - 1,
        ) {
            seq![(x as usize, (y - 1) as usize)]
        } else {
            Seq::empty()
        }
    }
}

/// Candidates of the first x rows, row-major.
pub open spec fn spec_cands_upto(
    wa: Seq<Window>,
    wb: Seq<Window>,
    params: ComparisonParams,
    x: nat,
) -> Seq<(usize, usize)>
    decreases x,
{
    if x == 0 {
        Seq::empty()
    } else {
        spec_cands_upto(wa, wb, params, (x - 1) as nat) + spec_cands_row(
            wa,
            wb,
            params,
            x - 1,
            wb.len(),
        )
    }
}

/// The full candidate list: every candidate pair in row-major order.
pub open spec fn spec_candidates(
    wa: Seq<Window>,
    wb: Seq<Window>,
    params: ComparisonParams,
) -> Seq<(usize, usize)> {
    spec_cands_upto(wa, wb, params, wa.len())
}

/// Candidate rows hold pairs (x, y) with y below the bound.
pub proof fn lemma_cands_row_range(
    wa: Seq<Window>,
    wb: Seq<Window>,
    params: ComparisonParams,
    x: int,
    y: nat,
)
    requires
        0 <= x <= usize::MAX,
        y <= wb.len(),
    ensures
        forall|t: int| 0 <= t < spec_cands_row(wa, wb, params, x, y).len() ==> (
        #[trigger] spec_cands_row(wa, wb, params, x, y)[t]).0 == x && spec_cands_row(
            wa,
            wb,
            params,
            x,
            y,
        )[t].1 < y,
    decreases y,
{
    if y > 0 {
        lemma_cands_row_range(wa, wb, params, x, (y - 1) as nat);
        let prev = spec_cands_row(wa, wb, params, x, (y - 1) as nat);
        let cur = spec_cands_row(wa, wb, params, x, y);
        assert(forall|t: int| 0 <= t < prev.len() ==> #[trigger] cur[t] == prev[t]);
    }
}

/// Candidate lists hold pairs (x, y) within the window index bounds.
pub proof fn lemma_cands_upto_range(
    wa: Seq<Window>,
    wb: Seq<Window>,
    params: ComparisonParams,
    x: nat,
)
    requires
        x <= wa.len(),
        wa.len() <= usize::MAX,
    ensures
        forall|t: int| 0 <= t < spec_cands_upto(wa, wb, params, x).len() ==> (
        #[trigger] spec_cands_upto(wa, wb, params, x)[t]).0 < x && spec_cands_upto(
            wa,
            wb,
            params,
            x,
        )[t].1 < wb.len(),
    decreases x,
{
    if x > 0 {
        lemma_cands_upto_range(wa, wb, params, (x - 1) as nat);
        lemma_cands_row_range(wa, wb, params, x - 1, wb.len());
        let prev = spec_cands_upto(wa, wb, params, (x - 1) as nat);
        let row = spec_cands_row(wa, wb, params, x - 1, wb.len());
        let cur = spec_cands_upto(wa, wb, params, x);
        assert(forall|t: int| 0 <= t < prev.len() ==> #[trigger] cur[t] == prev[t]);
        assert(forall|t: int| prev.len() <= t < cur.len() ==> #[trigger] cur[t] == row[t
            - prev.len()]);
    }
}

/// With no windows on one side there are no candidates.
pub proof fn lemma_candidates_empty(
    wa: Seq<Window>,
    wb: Seq<Window>,
    params: ComparisonParams,
    x: nat,
)
    requires
        wb.len() == 0,
    ensures
        spec_cands_upto(wa, wb, params, x).len() == 0,
    decreases x,
{
    if x > 0 {
        lemma_candidates_empty(wa, wb, params, (x - 1) as nat);
    }
}

pub proof fn lemma_count_in_nonneg(list: Seq<Seq<u32>>, pool: Seq<Seq<u32>>)
    ensures
        0 <= count_in(list, pool) <= list.len(),
    decreases list.len(),
{
    if list.len() > 0 {
        lemma_count_in_nonneg(list.drop_last(), pool);
    }
}

/// Whether two id vectors hold the same sequence.
#[verifier::loop_isolation(false)]
fn seqs_equal(a: &Vec<u32>, b: &Vec<u32>) -> (r: bool)
    ensures
        r == (a@ == b@),
{
    if a.len() != b.len() {
        proof {
            assert(a@.len() != b@.len());
        }
        return false;
    }
    let mut i: usize = 0;
    while i < a.len()
        invariant
            i <= a@.len(),
            a@.len() == b@.len(),
            forall|t: int| 0 <= t < i ==> a@[t] == b@[t],
        decreases a@.len() - i,
    {
        if a[i] != b[i] {
            return false;
        }
        i = i + 1;
    }
    proof {
        assert(a@ =~= b@);
    }
    true
}

/// Whether the pool of shingles holds x.
#[verifier::loop_isolation(false)]
fn list_contains(pool: &Vec<Vec<u32>>, x: &Vec<u32>) -> (r: bool)
    ensures
        r == views_of(pool@).contains(x@),
{
    let mut i: usize = 0;
    while i < pool.len()
        invariant
            i <= pool@.len(),
            forall|t: int| 0 <= t < i ==> views_of(pool@)[t] != x@,
        decreases pool@.len() - i,
    {
        if seqs_equal(&pool[i], x) {
            proof {
                assert(views_of(pool@)[i as int] == x@);
            }
            return true;
        }
        i = i + 1;
    }
    proof {
        assert(forall|t: int| 0 <= t < views_of(pool@).len() ==> views_of(pool@)[t] != x@);
    }
    false
}

/// Generate all n-gram shingles of a lemma sequence, in order, with
/// repeats kept.
#[verifier::loop_isolation(false)]
pub fn generate_shingles_vec(lemma_ids: &[u32], n: usize) -> (r: Vec<Vec<u32>>)
    ensures
        views_of(r@) == spec_shingles(lemma_ids@, n as int),
{
    let mut r: Vec<Vec<u32>> = Vec::new();
    if lemma_ids.len() < n || n == 0 {
        proof {
            assert(views_of(r@) =~= spec_shingles(lemma_ids@, n as int));
        }
        return r;
    }
    let count = lemma_ids.len() - n + 1;
    let mut i: usize = 0;
    while i < count
        invariant
            i <= count,
            count == lemma_ids@.len() - n + 1,
            1 <= n <= lemma_ids@.len(),
            r@.len() == i,
            forall|t: int| 0 <= t < i ==> views_of(r@)[t] == shingle_at(
                lemma_ids@,
                n as int,
                t,
            ),
        decreases count - i,
    {
        let sh = crate::window::copy_range_slice(lemma_ids, i, i + n);
        r.push(sh);
        i = i + 1;
    }
    proof {
        assert(views_of(r@) =~= spec_shingles(lemma_ids@, n as int));
    }
    r
}

/// Generate the distinct n-gram shingles of a lemma sequence, in order
/// of first occurrence.
#[verifier::loop_isolation(false)]
pub fn generate_shingles(lemma_ids: &[u32], n: usize) -> (r: Vec<Vec<u32>>)
    ensures
        views_of(r@) == spec_dedup(spec_shingles(lemma_ids@, n as int)),
{
    let ghost all = spec_shingles(lemma_ids@, n as int);
    let shingles = generate_shingles_vec(lemma_ids, n);
    let mut r: Vec<Vec<u32>> = Vec::new();
    let mut i: usize = 0;
    while i < shingles.len()
        invariant
            i <= shingles@.len(),
            views_of(r@) == spec_dedup(all.take(i as int)),
        decreases shingles@.len() - i,
    {
        proof {
            assert(all.take(i + 1).drop_last() =~= all.take(i as int));
            assert(all.take(i + 1).last() == all[i as int]);
            assert(views_of(shingles@)[i as int] == all[i as int]);
        }
        let present = list_contains(&r, &shingles[i]);
        if !present {
            let ghost prev = views_of(r@);
            r.push(crate::window::copy_vec(&shingles[i]));
            proof {
                assert(views_of(r@) =~= prev.push(all[i as int]));
            }
        }
        i = i + 1;
    }
    proof {
        assert(all.take(all.len() as int) =~= all);
    }
    r
}

/// Count of the distinct shingles of list that occur in pool.
#[verifier::loop_isolation(false)]
fn count_occurring(list: &Vec<Vec<u32>>, pool: &Vec<Vec<u32>>) -> (r: usize)
    ensures
        r == count_in(views_of(list@), views_of(pool@)),
{
    let ghost lv = views_of(list@);
    let mut count: usize = 0;
    let mut i: usize = 0;
    while i < list.len()
        invariant
            i <= list@.len(),
            count == count_in(lv.take(i as int), views_of(pool@)),
            count <= i,
        decreases list@.len() - i,
    {
        proof {
            assert(lv.take(i + 1).drop_last() =~= lv.take(i as int));
            assert(lv.take(i + 1).last() == lv[i as int]);
            lemma_count_in_nonneg(lv.take(i as int), views_of(pool@));
        }
        if list_contains(pool, &list[i]) {
            count = count + 1;
        }
        i = i + 1;
    }
    proof {
        assert(lv.take(lv.len() as int) =~= lv);
    }
    count
}

/// Generate all pairs (brute force mode), in row-major order.
#[verifier::loop_isolation(false)]
pub fn generate_all_pairs(len_a: usize, len_b: usize) -> (r: Vec<(usize, usize)>)
    ensures
        forall|t: int| 0 <= t < r@.len() ==> (#[trigger] r@[t]).0 < len_a && r@[t].1 < len_b,
        forall|x: usize, y: usize| x < len_a && y < len_b ==> r@.contains((x, y)),
        forall|t1: int, t2: int| 0 <= t1 < t2 < r@.len() ==> ((#[trigger] r@[t1]).0
            < (#[trigger] r@[t2]).0 || (r@[t1].0 == r@[t2].0 && r@[t1].1 < r@[t2].1)),
        r@.len() == len_a * len_b,
{
    let mut r: Vec<(usize, usize)> = Vec::new();
    let mut i: usize = 0;
    while i < len_a
        invariant
            i <= len_a,
            r@.len() == i * len_b,
            forall|t: int| 0 <= t < r@.len() ==> (#[trigger] r@[t]).0 < i && r@[t].1 < len_b,
            forall|x: usize, y: usize| x < i && y < len_b ==> r@.contains((x, y)),
            forall|t1: int, t2: int| 0 <= t1 < t2 < r@.len() ==> ((#[trigger] r@[t1]).0
                < (#[trigger] r@[t2]).0 || (r@[t1].0 == r@[t2].0 && r@[t1].1 < r@[t2].1)),
        decreases len_a - i,
    {
        let mut j: usize = 0;
        while j < len_b
            invariant
                j <= len_b,
                i < len_a,
                r@.len() == i * len_b + j,
                forall|t: int| 0 <= t < r@.len() ==> ((#[trigger] r@[t]).0 < i || (r@[t].0 == i
                    && r@[t].1 < j)) && r@[t].1 < len_b,
                forall|x: usize, y: usize| x < i && y < len_b ==> r@.contains((x, y)),
                forall|y: usize| y < j ==> r@.contains((i, y)),
                forall|t1: int, t2: int| 0 <= t1 < t2 < r@.len() ==> ((#[trigger] r@[t1]).0
                    < (#[trigger] r@[t2]).0 || (r@[t1].0 == r@[t2].0 && r@[t1].1 < r@[t2].1)),
            decreases len_b - j,
        {
            let ghost prev = r@;
            r.push((i, j));
            proof {
                assert(r@[r@.len() - 1] == (i, j));
                assert forall|x: usize, y: usize| x < i && y < len_b implies r@.contains(
                    (x, y),
                ) by {
                    assert(prev.contains((x, y)));
                    let t = choose|t: int| 0 <= t < prev.len() && prev[t] == (x, y);
                    assert(r@[t] == (x, y));
                }
                assert forall|y: usize| y < j + 1 implies r@.contains((i, y)) by {
                    if y < j {
                        assert(prev.contains((i, y)));
                        let t = choose|t: int| 0 <= t < prev.len() && prev[t] == (i, y);
                        assert(r@[t] == (i, y));
                    } else {
                        assert(r@[r@.len() - 1] == (i, j));
                    }
                }
            }
            j = j + 1;
        }
        proof {
            assert(i * len_b + len_b == (i + 1) * len_b) by (nonlinear_arith);
        }
        i = i + 1;
    }
    r
}

/// Find candidate window pairs that share enough distinct shingles, or
/// every pair under brute force. Pairs come out in row-major order of
/// window indices, each at most once.
#[verifier::loop_isolation(false)]
pub fn find_candidate_pairs(
    windows_a: &Vec<Window>,
    windows_b: &Vec<Window>,
    params: &ComparisonParams,
) -> (r: Vec<(usize, usize)>)
    ensures
        r@ == spec_candidates(windows_a@, windows_b@, *params),
        forall|t: int| 0 <= t < r@.len() ==> is_candidate(
            windows_a@,
            windows_b@,
            *params,
            (#[trigger] r@[t]).0 as int,
            r@[t].1 as int,
        ),
        forall|x: usize, y: usize| is_candidate(windows_a@, windows_b@, *params, x as int, y as int)
            ==> r@.contains((x, y)),
        forall|t1: int, t2: int| 0 <= t1 < t2 < r@.len() ==> ((#[trigger] r@[t1]).0
            < (#[trigger] r@[t2]).0 || (r@[t1].0 == r@[t2].0 && r@[t1].1 < r@[t2].1)),
{
    let ghost wa = windows_a@;
    let ghost wb = windows_b@;
    let mut cands: Vec<(usize, usize)> = Vec::new();
    let mut i: usize = 0;
    while i < windows_a.len()
        invariant
            i <= wa.len(),
            cands@ == spec_cands_upto(wa, wb, *params, i as nat),
            forall|t: int| 0 <= t < cands@.len() ==> is_candidate(
                wa,
                wb,
                *params,
                (#[trigger] cands@[t]).0 as int,
                cands@[t].1 as int,
            ) && cands@[t].0 < i,
            forall|x: usize, y: usize| x < i && is_candidate(wa, wb, *params, x as int, y as int)
                ==> cands@.contains((x, y)),
            forall|t1: int, t2: int| 0 <= t1 < t2 < cands@.len() ==> ((#[trigger] cands@[t1]).0
                < (#[trigger] cands@[t2]).0 || (cands@[t1].0 == cands@[t2].0 && cands@[t1].1
                < cands@[t2].1)),
        decreases wa.len() - i,
    {
        let shingles_a = if params.brute_force {
            Vec::new()
        } else {
            generate_shingles(windows_a[i].lemma_ids.as_slice(), params.ngram_size)
        };
        let mut j: usize = 0;
        while j < windows_b.len()
            invariant
                j <= wb.len(),
                i < wa.len(),
                !params.brute_force ==> views_of(shingles_a@) == spec_dedup(
                    spec_shingles(wa[i as int].lemma_ids@, params.ngram_size as int),
                ),
                cands@ == spec_cands_upto(wa, wb, *params, i as nat) + spec_cands_row(
                    wa,
                    wb,
                    *params,
                    i as int,
                    j as nat,
                ),
                forall|t: int| 0 <= t < cands@.len() ==> is_candidate(
                    wa,
                    wb,
                    *params,
                    (#[trigger] cands@[t]).0 as int,
                    cands@[t].1 as int,
                ) && (cands@[t].0 < i || (cands@[t].0 == i && cands@[t].1 < j)),
                forall|x: usize, y: usize| x < i && is_candidate(
                    wa,
                    wb,
                    *params,
                    x as int,
                    y as int,
                ) ==> cands@.contains((x, y)),
                forall|y: usize| y < j && is_candidate(wa, wb, *params, i as int, y as int)
                    ==> cands@.contains((i, y)),
                forall|t1: int, t2: int| 0 <= t1 < t2 < cands@.len() ==> ((
                #[trigger] cands@[t1]).0 < (#[trigger] cands@[t2]).0 || (cands@[t1].0
                    == cands@[t2].0 && cands@[t1].1 < cands@[t2].1)),
            decreases wb.len() - j,
        {
            let is_cand: bool;
            if params.brute_force {
                is_cand = true;
            } else {
                let shingles_b = generate_shingles_vec(
                    windows_b[j].lemma_ids.as_slice(),
                    params.ngram_size,
                );
                let count = count_occurring(&shingles_a, &shingles_b);
                is_cand = count >= params.min_shared_shingles;
            }
            proof {
                assert(is_cand == is_candidate(wa, wb, *params, i as int, j as int));
            }
            if is_cand {
                let ghost prev = cands@;
                cands.push((i, j));
                proof {
                    assert forall|x: usize, y: usize| prev.contains((x, y)) implies cands@.contains(
                        (x, y),
                    ) by {
                        let t = choose|t: int| 0 <= t < prev.len() && prev[t] == (x, y);
                        assert(cands@[t] == (x, y));
                    }
                    assert(cands@[cands@.len() - 1] == (i, j));
                    assert(cands@ =~= spec_cands_upto(wa, wb, *params, i as nat) + spec_cands_row(
                        wa,
                        wb,
                        *params,
                        i as int,
                        (j + 1) as nat,
                    ));
                }
            } else {
                proof {
                    assert(cands@ =~= spec_cands_upto(wa, wb, *params, i as nat) + spec_cands_row(
                        wa,
                        wb,
                        *params,
                        i as int,
                        (j + 1) as nat,
                    ));
                }
            }
            j = j + 1;
        }
        i = i + 1;
    }
    cands
}

/// Count the distinct shingles across all windows.
pub open spec fn windows_shingles(ws: Seq<Window>, n: int) -> Seq<Seq<u32>>
    decreases ws.len(),
{
    if ws.len() == 0 {
        Seq::empty()
    } else {
        windows_shingles(ws.drop_last(), n) + spec_shingles(ws.last().lemma_ids@, n)
    }
}

/// Count total unique shingles across all windows.
#[verifier::loop_isolation(false)]
pub fn count_unique_shingles(windows: &Vec<Window>, ngram_size: usize) -> (r: usize)
    ensures
        r == spec_dedup(windows_shingles(windows@, ngram_size as int)).len(),
{
    let ghost n = ngram_size as int;
    let mut acc: Vec<Vec<u32>> = Vec::new();
    let mut i: usize = 0;
    while i < windows.len()
        invariant
            i <= windows@.len(),
            views_of(acc@) == spec_dedup(windows_shingles(windows@.take(i as int), n)),
        decreases windows@.len() - i,
    {
        let shingles = generate_shingles_vec(windows[i].lemma_ids.as_slice(), ngram_size);
        let ghost before = windows_shingles(windows@.take(i as int), n);
        let ghost cur = spec_shingles(windows@[i as int].lemma_ids@, n);
        let mut k: usize = 0;
        while k < shingles.len()
            invariant
                k <= shingles@.len(),
                views_of(shingles@) == cur,
                views_of(acc@) == spec_dedup(before + cur.take(k as int)),
            decreases shingles@.len() - k,
        {
            proof {
                assert((before + cur.take(k + 1)).drop_last() =~= before + cur.take(k as int));
                assert((before + cur.take(k + 1)).last() == cur[k as int]);
            }
            let present = list_contains(&acc, &shingles[k]);
            if !present {
                let ghost prev = views_of(acc@);
                acc.push(crate::window::copy_vec(&shingles[k]));
                proof {
                    assert(views_of(acc@) =~= prev.push(cur[k as int]));
                }
            }
            k = k + 1;
        }
        proof {
            assert(windows@.take(i + 1).drop_last() =~= windows@.take(i as int));
            assert(windows@.take(i + 1).last() == windows@[i as int]);
            assert(before + cur.take(cur.len() as int) =~= windows_shingles(
                windows@.take(i + 1),
                n,
            ));
        }
        i = i + 1;
    }
    proof {
        assert(windows@.take(windows@.len() as int) =~= windows@);
    }
    acc.len()
}

/// All elements of a shingle list are pairwise distinct.
pub open spec fn shingles_distinct(s: Seq<Seq<u32>>) -> bool {
    forall|t1: int, t2: int| 0 <= t1 < t2 < s.len() ==> s[t1] != s[t2]
}

/// Jaccard similarity of two distinct-shingle sets, per-mille: the size
/// of the intersection over the size of the union, and 1000 when both
/// sets are empty.
#[verifier::loop_isolation(false)]
pub fn jaccard_similarity(shingles_a: &Vec<Vec<u32>>, shingles_b: &Vec<Vec<u32>>) -> (r: u64)
    requires
        shingles_distinct(views_of(shingles_a@)),
        shingles_a@.len() < 0x8000_0000,
        shingles_b@.len() < 0x8000_0000,
    ensures
        ({
            let inter = count_in(views_of(shingles_a@), views_of(shingles_b@));
            let union_size = views_of(shingles_a@).len() + views_of(shingles_b@).len() - inter;
            r == if views_of(shingles_a@).len() == 0 && views_of(shingles_b@).len() == 0 {
                1000int
            } else if union_size == 0 {
                0int
            } else {
                inter * 1000 / union_size
            }
        }),
{
    if shingles_a.len() == 0 && shingles_b.len() == 0 {
        return 1000;
    }
    let intersection = count_occurring(shingles_a, shingles_b);
    proof {
        lemma_count_in_nonneg(views_of(shingles_a@), views_of(shingles_b@));
    }
    let union_size = shingles_a.len() + shingles_b.len() - intersection;
    if union_size == 0 {
        0
    } else {
        (intersection as u64 * 1000) / (union_size as u64)
    }
}

/// Estimate the filtering rate, per-mille: the share of the full
/// window-pair space that the shingle filter discards.
#[verifier::loop_isolation(false)]
pub fn estimate_filtering_rate(
    windows_a: &Vec<Window>,
    windows_b: &Vec<Window>,
    params: &ComparisonParams,
) -> (r: u32)
    requires
        windows_a@.len() < 0x8000,
        windows_b@.len() < 0x8000,
    ensures
        r <= 1000,
{
    proof {
        assert(windows_a@.len() * windows_b@.len() < 0x4000_0000) by (nonlinear_arith)
            requires windows_a@.len() < 0x8000, windows_b@.len() < 0x8000;
    }
    let total = windows_a.len() * windows_b.len();
    if total == 0 {
        return 0;
    }
    let candidates = find_candidate_pairs(windows_a, windows_b, params);
    let filtered = candidates.len();
    if filtered >= total {
        return 0;
    }
    proof {
        assert((filtered as int) * 1000 / (total as int) <= 1000) by (nonlinear_arith)
            requires 0 < total as int, 0 <= filtered as int <= total as int;
    }
    1000 - ((filtered as u64 * 1000) / (total as u64)) as u32
}

} // verus!