//! Smith-Waterman local alignment for lemma id sequences.
//!
//! The dynamic program, its argmax cell, and the traceback are all
//! mirrored by specification functions, so the contracts of the public
//! alignment functions pin the result down exactly: the returned
//! alignment is the traceback from the first maximal cell of the score
//! matrix, and a pair of sequences aligns if and only if that traceback
//! passes the length and similarity gates.

use vstd::prelude::*;
use vstd::arithmetic::div_mod::lemma_fundamental_div_mod_converse;

use crate::models::{Alignment, ComparisonParams, MatchMode};

verus! {

/// Everything the alignment scores depend on: the two lemma sequences,
/// the two root sequences, the per-mille weight tables, whether
/// weighting applies, and the scoring parameters.
pub struct AlignModel {
    pub la: Seq<u32>,
    pub lb: Seq<u32>,
    pub ra: Seq<u32>,
    pub rb: Seq<u32>,
    pub wa: Seq<u32>,
    pub wb: Seq<u32>,
    pub weighted: bool,
    pub params: ComparisonParams,
}

/// Root id at position i; positions past the end count as "no root".
pub open spec fn root_at(roots: Seq<u32>, i: int) -> u32 {
    if 0 <= i < roots.len() {
        roots[i]
    } else {
        0u32
    }
}

/// Per-mille weight of a lemma id: the stored entry where one is present
/// and positive, else the neutral weight 1000.
pub open spec fn weight_of(weights: Seq<u32>, lemma: u32) -> u32 {
    if lemma < weights.len() && weights[lemma as int] > 0 {
        weights[lemma as int]
    } else {
        1000u32
    }
}

/// A weight table is either absent at an id or clamped to [500, 3000].
pub open spec fn weights_wf(weights: Seq<u32>) -> bool {
    forall|i: int| 0 <= i < weights.len() ==> #[trigger] weights[i] == 0 || (500
        <= weights[i] <= 3000)
}

pub open spec fn min_u32(a: u32, b: u32) -> u32 {
    if a <= b {
        a
    } else {
        b
    }
}

pub open spec fn max2(a: int, b: int) -> int {
    if a >= b {
        a
    } else {
        b
    }
}

/// Substitution score for a diagonal step, by matching mode. When
/// `weighted`, a lemma match is scaled by min(w_a, w_b) / 1000 and
/// truncated, keeping the DP on integers.
pub open spec fn sub_score(
    la: u32,
    lb: u32,
    ra: u32,
    rb: u32,
    wa: Seq<u32>,
    wb: Seq<u32>,
    weighted: bool,
    params: ComparisonParams,
) -> int {
    match params.mode {
        MatchMode::Lemma => {
            if la == lb {
                if weighted {
                    params.lemma_score * min_u32(weight_of(wa, la), weight_of(wb, lb)) / 1000
                } else {
                    params.lemma_score as int
                }
            } else {
                params.mismatch_penalty as int
            }
        },
        MatchMode::Root => {
            if ra == rb && ra != 0 {
                params.lemma_score as int
            } else {
                params.mismatch_penalty as int
            }
        },
        MatchMode::Combined => {
            if la == lb {
                if weighted {
                    params.lemma_score * min_u32(weight_of(wa, la), weight_of(wb, lb)) / 1000
                } else {
                    params.lemma_score as int
                }
            } else if ra == rb && ra != 0 {
                params.root_score as int
            } else {
                params.mismatch_penalty as int
            }
        },
    }
}

/// Substitution score of DP cell (i, j), which compares the ids at
/// positions i - 1 and j - 1.
pub open spec fn score_at(m: AlignModel, i: int, j: int) -> int {
    sub_score(
        m.la[i - 1],
        m.lb[j - 1],
        root_at(m.ra, i - 1),
        root_at(m.rb, j - 1),
        m.wa,
        m.wb,
        m.weighted,
        m.params,
    )
}

/// The Smith-Waterman matrix: H[i][j] is the best local alignment score
/// ending at positions (i, j), clamped at 0.
pub open spec fn dp(m: AlignModel, i: nat, j: nat) -> int
    decreases i + j,
{
    if i == 0 || j == 0 {
        0
    } else {
        let d = dp(m, (i - 1) as nat, (j - 1) as nat) + score_at(m, i as int, j as int);
        let u = dp(m, (i - 1) as nat, j) + m.params.gap_penalty;
        let l = dp(m, i, (j - 1) as nat) + m.params.gap_penalty;
        max2(0, max2(d, max2(u, l)))
    }
}

/// An upper bound on any single score step.
pub open spec fn step_bound(m: AlignModel) -> int {
    3 * (m.params.lemma_score as int) + m.params.root_score
}

/// The model a verified aligner call works under: in-bounds sizes,
/// sign-correct scores, and clamped weight tables when weighting is on.
pub open spec fn model_wf(m: AlignModel) -> bool {
    &&& m.la.len() < 0x8000
    &&& m.lb.len() < 0x8000
    &&& m.params.lemma_score >= 0
    &&& m.params.root_score >= 0
    &&& m.params.mismatch_penalty <= 0
    &&& m.params.gap_penalty <= 0
    &&& (m.weighted ==> weights_wf(m.wa) && weights_wf(m.wb))
}

pub proof fn lemma_score_at_bound(m: AlignModel, i: int, j: int)
    requires
        model_wf(m),
    ensures
        score_at(m, i, j) <= step_bound(m),
        score_at(m, i, j) >= m.params.mismatch_penalty,
{
    if m.weighted {
        let wmin = min_u32(weight_of(m.wa, m.la[i - 1]), weight_of(m.wb, m.lb[j - 1]));
        assert(0 <= wmin <= 3000);
        assert(0 <= m.params.lemma_score * wmin / 1000 <= 3 * (m.params.lemma_score as int))
            by (nonlinear_arith)
            requires 0 <= wmin <= 3000, m.params.lemma_score >= 0;
    }
}

/// DP cells stay within 0 and (i + j) * step_bound.
pub proof fn lemma_dp_bound(m: AlignModel, i: nat, j: nat)
    requires
        model_wf(m),
    ensures
        0 <= dp(m, i, j) <= (i + j) * step_bound(m),
    decreases i + j,
{
    if i == 0 || j == 0 {
        assert((i + j) * step_bound(m) >= 0) by (nonlinear_arith)
            requires step_bound(m) >= 0, i + j >= 0;
    } else {
        lemma_dp_bound(m, (i - 1) as nat, (j - 1) as nat);
        lemma_dp_bound(m, (i - 1) as nat, j);
        lemma_dp_bound(m, i, (j - 1) as nat);
        lemma_score_at_bound(m, i as int, j as int);
        assert((i + j - 2) * step_bound(m) + step_bound(m) <= (i + j) * step_bound(m)
            && (i + j - 1) * step_bound(m) <= (i + j) * step_bound(m)) by (nonlinear_arith)
            requires step_bound(m) >= 0, i >= 1, j >= 1;
    }
}

/// Running maximum over the first t cells of the matrix in row-major
/// scan order, as (row, column, score); ties keep the first occurrence.
pub open spec fn best_upto(m: AlignModel, t: nat) -> (int, int, int)
    decreases t,
{
    if t == 0 {
        (0, 0, 0)
    } else {
        let prev = best_upto(m, (t - 1) as nat);
        let cols = m.lb.len() as int;
        let r = ((t - 1) as int) / cols + 1;
        let c = ((t - 1) as int) % cols + 1;
        let v = dp(m, r as nat, c as nat);
        if v > prev.2 {
            (r, c, v)
        } else {
            prev
        }
    }
}

/// The first maximal cell of the whole matrix.
pub open spec fn best(m: AlignModel) -> (int, int, int) {
    best_upto(m, (m.la.len() * m.lb.len()) as nat)
}

/// The best-so-far score is the score of the best-so-far cell.
pub proof fn lemma_best_upto_cell(m: AlignModel, t: nat)
    requires
        m.lb.len() > 0,
    ensures
        best_upto(m, t).2 == dp(m, best_upto(m, t).0 as nat, best_upto(m, t).1 as nat),
        best_upto(m, t).2 >= 0,
        0 <= best_upto(m, t).0,
        0 <= best_upto(m, t).1,
    decreases t,
{
    if t > 0 {
        lemma_best_upto_cell(m, (t - 1) as nat);
    }
}

/// The argmax cell lies within the matrix.
pub proof fn lemma_best_upto_bounds(m: AlignModel, t: nat)
    requires
        m.lb.len() > 0,
        t <= m.la.len() * m.lb.len(),
    ensures
        0 <= best_upto(m, t).0 <= m.la.len(),
        0 <= best_upto(m, t).1 <= m.lb.len(),
    decreases t,
{
    if t > 0 {
        lemma_best_upto_bounds(m, (t - 1) as nat);
        let cols = m.lb.len() as int;
        let n = m.la.len() as int;
        assert(n * cols - 1 == (n - 1) * cols + (cols - 1)) by (nonlinear_arith);
        lemma_fundamental_div_mod_converse(n * cols - 1, cols, n - 1, cols - 1);
        vstd::arithmetic::div_mod::lemma_div_is_ordered((t - 1) as int, n * cols - 1, cols);
        vstd::arithmetic::div_mod::lemma_div_pos_is_pos((t - 1) as int, cols);
        vstd::arithmetic::div_mod::lemma_mod_bound((t - 1) as int, cols);
    }
}

/// The argmax cell of the whole matrix lies within it.
pub proof fn lemma_best_bounds(m: AlignModel)
    requires
        m.lb.len() > 0,
    ensures
        0 <= best(m).0 <= m.la.len(),
        0 <= best(m).1 <= m.lb.len(),
{
    lemma_best_upto_bounds(m, (m.la.len() * m.lb.len()) as nat);
}

/// When no in-range position pair scores positively, every in-range DP
/// cell is zero.
pub open spec fn no_positive_scores(m: AlignModel) -> bool {
    forall|i: int, j: int| 1 <= i <= m.la.len() && 1 <= j <= m.lb.len() ==> #[trigger] score_at(
        m,
        i,
        j,
    ) <= 0
}

pub proof fn lemma_dp_zero(m: AlignModel, i: nat, j: nat)
    requires
        no_positive_scores(m),
        m.params.gap_penalty <= 0,
        i <= m.la.len(),
        j <= m.lb.len(),
    ensures
        dp(m, i, j) == 0,
    decreases i + j,
{
    if i == 0 || j == 0 {
    } else {
        lemma_dp_zero(m, (i - 1) as nat, (j - 1) as nat);
        lemma_dp_zero(m, (i - 1) as nat, j);
        lemma_dp_zero(m, i, (j - 1) as nat);
    }
}

/// With no positive score anywhere, the running maximum never leaves
/// the zero cell.
pub proof fn lemma_best_zero(m: AlignModel, t: nat)
    requires
        no_positive_scores(m),
        m.params.gap_penalty <= 0,
        m.lb.len() > 0,
        t <= m.la.len() * m.lb.len(),
    ensures
        best_upto(m, t) == (0int, 0int, 0int),
    decreases t,
{
    if t > 0 {
        lemma_best_zero(m, (t - 1) as nat);
        let cols = m.lb.len() as int;
        let n = m.la.len() as int;
        assert(n * cols - 1 == (n - 1) * cols + (cols - 1)) by (nonlinear_arith);
        lemma_fundamental_div_mod_converse(n * cols - 1, cols, n - 1, cols - 1);
        vstd::arithmetic::div_mod::lemma_div_is_ordered((t - 1) as int, n * cols - 1, cols);
        vstd::arithmetic::div_mod::lemma_div_pos_is_pos((t - 1) as int, cols);
        vstd::arithmetic::div_mod::lemma_mod_bound((t - 1) as int, cols);
        let r = ((t - 1) as int) / cols + 1;
        let c = ((t - 1) as int) % cols + 1;
        lemma_dp_zero(m, r as nat, c as nat);
    }
}

/// Sequences that share no lemma and no non-zero root never align,
/// provided the score threshold is positive.
pub proof fn lemma_disjoint_not_accepted(m: AlignModel)
    requires
        model_wf(m),
        forall|i: int, j: int| 0 <= i < m.la.len() && 0 <= j < m.lb.len() ==> #[trigger] m.la[i]
            != #[trigger] m.lb[j],
        forall|i: int, j: int| 0 <= i < m.la.len() && 0 <= j < m.lb.len() ==> (root_at(m.ra, i)
            != root_at(m.rb, j) || root_at(m.ra, i) == 0),
        score_threshold(m.params) > 0,
    ensures
        !align_accepted(m),
{
    if m.la.len() > 0 && m.lb.len() > 0 {
        assert forall|i: int, j: int| 1 <= i <= m.la.len() && 1 <= j <= m.lb.len()
            implies #[trigger] score_at(m, i, j) <= 0 by {
            assert(m.la[i - 1] != m.lb[j - 1]);
            assert(root_at(m.ra, i - 1) != root_at(m.rb, j - 1) || root_at(m.ra, i - 1) == 0);
        }
        lemma_best_zero(m, (m.la.len() * m.lb.len()) as nat);
        assert(best(m).2 == 0);
    }
}

/// Traceback from cell (i, j): pairs recorded by diagonal steps, in
/// traceback order (the pair nearest (i, j) first). At each cell the
/// diagonal predecessor is preferred, then the upward one, then the
/// left one; the walk stops at a zero cell or an edge.
pub open spec fn trace_pairs(m: AlignModel, i: nat, j: nat) -> Seq<(usize, usize)>
    decreases i + j,
{
    if i == 0 || j == 0 || dp(m, i, j) <= 0 {
        Seq::empty()
    } else {
        let cur = dp(m, i, j);
        let diag = dp(m, (i - 1) as nat, (j - 1) as nat);
        let up = dp(m, (i - 1) as nat, j);
        if cur == diag + score_at(m, i as int, j as int) {
            seq![(((i - 1) as usize), ((j - 1) as usize))] + trace_pairs(
                m,
                (i - 1) as nat,
                (j - 1) as nat,
            )
        } else if cur == up + m.params.gap_penalty {
            trace_pairs(m, (i - 1) as nat, j)
        } else {
            trace_pairs(m, i, (j - 1) as nat)
        }
    }
}

/// Number of non-diagonal steps taken by the same traceback.
pub open spec fn trace_gaps(m: AlignModel, i: nat, j: nat) -> int
    decreases i + j,
{
    if i == 0 || j == 0 || dp(m, i, j) <= 0 {
        0
    } else {
        let cur = dp(m, i, j);
        let diag = dp(m, (i - 1) as nat, (j - 1) as nat);
        let up = dp(m, (i - 1) as nat, j);
        if cur == diag + score_at(m, i as int, j as int) {
            trace_gaps(m, (i - 1) as nat, (j - 1) as nat)
        } else if cur == up + m.params.gap_penalty {
            1 + trace_gaps(m, (i - 1) as nat, j)
        } else {
            1 + trace_gaps(m, i, (j - 1) as nat)
        }
    }
}

/// The traceback pairs are strictly decreasing in both coordinates and
/// lie below (i, j).
pub proof fn lemma_trace_pairs_sorted(m: AlignModel, i: nat, j: nat)
    requires
        i <= usize::MAX,
        j <= usize::MAX,
    ensures
        forall|t: int| 0 <= t < trace_pairs(m, i, j).len()
            ==> (#[trigger] trace_pairs(m, i, j)[t]).0 < i
            && trace_pairs(m, i, j)[t].1 < j,
        forall|t1: int, t2: int| 0 <= t1 < t2 < trace_pairs(m, i, j).len()
            ==> (#[trigger] trace_pairs(m, i, j)[t1]).0 > (#[trigger] trace_pairs(m, i, j)[t2]).0
            && trace_pairs(m, i, j)[t1].1 > trace_pairs(m, i, j)[t2].1,
        trace_gaps(m, i, j) >= 0,
        trace_pairs(m, i, j).len() + trace_gaps(m, i, j) <= i + j,
    decreases i + j,
{
    if i == 0 || j == 0 || dp(m, i, j) <= 0 {
    } else {
        let cur = dp(m, i, j);
        let diag = dp(m, (i - 1) as nat, (j - 1) as nat);
        let up = dp(m, (i - 1) as nat, j);
        if cur == diag + score_at(m, i as int, j as int) {
            lemma_trace_pairs_sorted(m, (i - 1) as nat, (j - 1) as nat);
            let p = (((i - 1) as usize), ((j - 1) as usize));
            let rest = trace_pairs(m, (i - 1) as nat, (j - 1) as nat);
            let s = trace_pairs(m, i, j);
            assert(s == seq![p] + rest);
            assert(forall|t: int| 1 <= t < s.len() ==> #[trigger] s[t] == rest[t - 1]);
            assert(s[0] == p);
            assert forall|t1: int, t2: int| 0 <= t1 < t2 < s.len() implies (#[trigger] s[t1]).0
                > (#[trigger] s[t2]).0 && s[t1].1 > s[t2].1 by {
                assert(s[t2] == rest[t2 - 1]);
                assert(rest[t2 - 1].0 < i - 1 && rest[t2 - 1].1 < j - 1);
                if t1 > 0 {
                    assert(s[t1] == rest[t1 - 1]);
                }
            }
        } else if cur == up + m.params.gap_penalty {
            lemma_trace_pairs_sorted(m, (i - 1) as nat, j);
        } else {
            lemma_trace_pairs_sorted(m, i, (j - 1) as nat);
        }
    }
}

/// Count of the pairs in s satisfying pred.
pub open spec fn count_pairs(s: Seq<(usize, usize)>, pred: spec_fn((usize, usize)) -> bool) -> int
    decreases s.len(),
{
    if s.len() == 0 {
        0
    } else {
        count_pairs(s.drop_last(), pred) + if pred(s.last()) {
            1int
        } else {
            0int
        }
    }
}

pub proof fn lemma_count_push(s: Seq<(usize, usize)>, pred: spec_fn((usize, usize)) -> bool, x: (usize, usize))
    ensures
        count_pairs(s.push(x), pred) == count_pairs(s, pred) + if pred(x) {
            1int
        } else {
            0int
        },
{
    assert(s.push(x).drop_last() =~= s);
}

pub proof fn lemma_count_nonneg(s: Seq<(usize, usize)>, pred: spec_fn((usize, usize)) -> bool)
    ensures
        0 <= count_pairs(s, pred) <= s.len(),
    decreases s.len(),
{
    if s.len() > 0 {
        lemma_count_nonneg(s.drop_last(), pred);
    }
}

pub proof fn lemma_count_first(s: Seq<(usize, usize)>, pred: spec_fn((usize, usize)) -> bool)
    requires
        s.len() > 0,
    ensures
        count_pairs(s, pred) == count_pairs(s.skip(1), pred) + if pred(s[0]) {
            1int
        } else {
            0int
        },
    decreases s.len(),
{
    if s.len() == 1 {
        assert(s.skip(1) =~= Seq::<(usize, usize)>::empty());
        assert(s.last() == s[0]);
        assert(count_pairs(s.skip(1), pred) == 0);
        assert(count_pairs(s.drop_last(), pred) == 0);
    } else {
        lemma_count_first(s.drop_last(), pred);
        assert(s.drop_last()[0] == s[0]);
        assert(s.drop_last().skip(1) =~= s.skip(1).drop_last());
        assert(s.skip(1).last() == s.last());
        assert(count_pairs(s.skip(1), pred) == count_pairs(s.skip(1).drop_last(), pred) + if pred(
            s.skip(1).last(),
        ) {
            1int
        } else {
            0int
        });
    }
}

/// A count is indifferent to order: reversing the pairs keeps it.
pub proof fn lemma_count_reverse(s: Seq<(usize, usize)>, pred: spec_fn((usize, usize) ) -> bool)
    ensures
        count_pairs(s.reverse(), pred) == count_pairs(s, pred),
    decreases s.len(),
{
    if s.len() == 0 {
        assert(s.reverse() =~= s);
    } else {
        lemma_count_reverse(s.skip(1), pred);
        assert(s.reverse().drop_last() =~= s.skip(1).reverse());
        assert(s.reverse().last() == s[0]);
        lemma_count_first(s, pred);
    }
}

/// Pairs where the lemmas are equal.
pub open spec fn lemma_match_pred(la: Seq<u32>, lb: Seq<u32>) -> spec_fn((usize, usize)) -> bool {
    |p: (usize, usize)| la[p.0 as int] == lb[p.1 as int]
}

/// Pairs where the roots are equal and non-zero (lemmas may also match).
pub open spec fn root_match_pred(ra: Seq<u32>, rb: Seq<u32>) -> spec_fn((usize, usize)) -> bool {
    |p: (usize, usize)| root_at(ra, p.0 as int) == root_at(rb, p.1 as int) && root_at(
        ra,
        p.0 as int,
    ) != 0
}

/// Pairs where the roots match but the lemmas do not.
pub open spec fn root_only_pred(
    la: Seq<u32>,
    lb: Seq<u32>,
    ra: Seq<u32>,
    rb: Seq<u32>,
) -> spec_fn((usize, usize)) -> bool {
    |p: (usize, usize)| la[p.0 as int] != lb[p.1 as int] && root_at(ra, p.0 as int) == root_at(
        rb,
        p.1 as int,
    ) && root_at(ra, p.0 as int) != 0
}

/// Pairs where neither the lemmas nor the roots match.
pub open spec fn substitution_pred(
    la: Seq<u32>,
    lb: Seq<u32>,
    ra: Seq<u32>,
    rb: Seq<u32>,
) -> spec_fn((usize, usize)) -> bool {
    |p: (usize, usize)| la[p.0 as int] != lb[p.1 as int] && !(root_at(ra, p.0 as int) == root_at(
        rb,
        p.1 as int,
    ) && root_at(ra, p.0 as int) != 0)
}

/// Every pair is a lemma match, a root-only match, or a substitution.
pub proof fn lemma_counts_partition(m: AlignModel, s: Seq<(usize, usize)>)
    ensures
        count_pairs(s, lemma_match_pred(m.la, m.lb)) + count_pairs(
            s,
            root_only_pred(m.la, m.lb, m.ra, m.rb),
        ) + count_pairs(s, substitution_pred(m.la, m.lb, m.ra, m.rb)) == s.len(),
    decreases s.len(),
{
    if s.len() > 0 {
        lemma_counts_partition(m, s.drop_last());
    }
}

/// Sum over the lemma-equal pairs of min(w_a, w_b), per-mille.
pub open spec fn weight_sum(m: AlignModel, s: Seq<(usize, usize)>) -> int
    decreases s.len(),
{
    if s.len() == 0 {
        0
    } else {
        weight_sum(m, s.drop_last()) + if lemma_match_pred(m.la, m.lb)(s.last()) {
            min_u32(
                weight_of(m.wa, m.la[s.last().0 as int]),
                weight_of(m.wb, m.lb[s.last().1 as int]),
            ) as int
        } else {
            0int
        }
    }
}

pub proof fn lemma_weight_sum_push(m: AlignModel, s: Seq<(usize, usize)>, x: (usize, usize))
    ensures
        weight_sum(m, s.push(x)) == weight_sum(m, s) + if lemma_match_pred(m.la, m.lb)(x) {
            min_u32(weight_of(m.wa, m.la[x.0 as int]), weight_of(m.wb, m.lb[x.1 as int])) as int
        } else {
            0int
        },
{
    assert(s.push(x).drop_last() =~= s);
}

/// The early-exit threshold: half of min_length * lemma_score.
pub open spec fn score_threshold(params: ComparisonParams) -> int {
    params.min_length * params.lemma_score / 2
}

/// The mode-specific similarity gate, as an exact rational comparison
/// against the per-mille bound.
pub open spec fn similarity_ok(m: AlignModel, s: Seq<(usize, usize)>) -> bool {
    match m.params.mode {
        MatchMode::Lemma => 1000 * count_pairs(s, lemma_match_pred(m.la, m.lb))
            >= m.params.min_similarity * s.len(),
        MatchMode::Root => 1000 * count_pairs(s, root_match_pred(m.ra, m.rb))
            >= m.params.min_similarity * s.len(),
        MatchMode::Combined => 1000 * (2 * count_pairs(s, lemma_match_pred(m.la, m.lb))
            + count_pairs(s, root_only_pred(m.la, m.lb, m.ra, m.rb))) >= 2
            * m.params.min_similarity * s.len(),
    }
}

/// The traceback pairs of the best cell of the matrix.
pub open spec fn accepted_pairs(m: AlignModel) -> Seq<(usize, usize)> {
    trace_pairs(m, best(m).0 as nat, best(m).1 as nat)
}

/// A pair of sequences aligns exactly when both are non-empty, the best
/// DP score reaches the threshold, and the traceback passes the length
/// and similarity gates.
pub open spec fn align_accepted(m: AlignModel) -> bool {
    &&& m.la.len() > 0
    &&& m.lb.len() > 0
    &&& best(m).2 >= score_threshold(m.params)
    &&& accepted_pairs(m).len() >= m.params.min_length
    &&& similarity_ok(m, accepted_pairs(m))
}

/// The full functional description of an accepted alignment.
pub open spec fn alignment_matches_model(al: Alignment, m: AlignModel) -> bool {
    let pairs = accepted_pairs(m);
    &&& al.aligned_pairs@ == pairs.reverse()
    &&& al.lemma_matches == count_pairs(pairs, lemma_match_pred(m.la, m.lb))
    &&& al.root_only_matches == count_pairs(pairs, root_only_pred(m.la, m.lb, m.ra, m.rb))
    &&& al.substitutions == count_pairs(pairs, substitution_pred(m.la, m.lb, m.ra, m.rb))
    &&& al.gaps == trace_gaps(m, best(m).0 as nat, best(m).1 as nat)
    &&& al.score == best(m).2
    &&& al.match_weight_sum == if m.weighted {
        weight_sum(m, pairs)
    } else {
        0int
    }
    &&& al.start_a == if pairs.len() > 0 {
        pairs.last().0 as int
    } else {
        0int
    }
    &&& al.start_b == if pairs.len() > 0 {
        pairs.last().1 as int
    } else {
        0int
    }
    &&& al.end_a == if pairs.len() > 0 {
        pairs[0].0 + 1
    } else {
        1int
    }
    &&& al.end_b == if pairs.len() > 0 {
        pairs[0].1 + 1
    } else {
        1int
    }
}

/// The smaller of two cell coordinates.
pub open spec fn min2(a: int, b: int) -> int {
    if a <= b {
        a
    } else {
        b
    }
}

/// In lemma mode every step scores at most lemma_score, so a cell is
/// bounded by the shorter of its coordinates times the reward.
pub proof fn lemma_dp_upper_lemma_mode(m: AlignModel, i: nat, j: nat)
    requires
        model_wf(m),
        m.params.mode is Lemma,
        !m.weighted,
    ensures
        dp(m, i, j) <= min2(i as int, j as int) * m.params.lemma_score,
    decreases i + j,
{
    let ls = m.params.lemma_score as int;
    if i == 0 || j == 0 {
        assert(min2(i as int, j as int) * ls >= 0) by (nonlinear_arith)
            requires ls >= 0, min2(i as int, j as int) >= 0;
    } else {
        lemma_dp_upper_lemma_mode(m, (i - 1) as nat, (j - 1) as nat);
        lemma_dp_upper_lemma_mode(m, (i - 1) as nat, j);
        lemma_dp_upper_lemma_mode(m, i, (j - 1) as nat);
        assert(score_at(m, i as int, j as int) <= ls);
        assert(min2(i - 1, j - 1) * ls + ls <= min2(i as int, j as int) * ls
            && min2(i - 1, j as int) * ls <= min2(i as int, j as int) * ls
            && min2(i as int, j - 1) * ls <= min2(i as int, j as int) * ls)
            by (nonlinear_arith)
            requires ls >= 0, i >= 1, j >= 1;
    }
}

/// Against itself, a sequence's diagonal cells score exactly their
/// depth times the reward.
pub proof fn lemma_dp_diagonal_identical(m: AlignModel, i: nat)
    requires
        model_wf(m),
        m.params.mode is Lemma,
        !m.weighted,
        m.la == m.lb,
        i <= m.la.len(),
    ensures
        dp(m, i, i) == i * m.params.lemma_score,
    decreases i,
{
    let ls = m.params.lemma_score as int;
    if i == 0 {
    } else {
        lemma_dp_diagonal_identical(m, (i - 1) as nat);
        lemma_dp_upper_lemma_mode(m, i, i);
        lemma_dp_upper_lemma_mode(m, (i - 1) as nat, i);
        lemma_dp_upper_lemma_mode(m, i, (i - 1) as nat);
        assert(m.la[i - 1] == m.lb[i - 1]);
        assert(score_at(m, i as int, i as int) == ls);
        assert((i - 1) * ls + ls == i * ls) by (nonlinear_arith);
        assert((i - 1) * ls <= i * ls) by (nonlinear_arith)
            requires ls >= 0, i >= 1;
    }
}

/// Before the last cell, the running maximum stays strictly below the
/// corner cell's score.
pub proof fn lemma_best_upto_identical(m: AlignModel, t: nat)
    requires
        model_wf(m),
        m.params.mode is Lemma,
        !m.weighted,
        m.la == m.lb,
        m.la.len() >= 1,
        m.params.lemma_score >= 1,
        t <= m.la.len() * m.la.len() - 1,
    ensures
        best_upto(m, t).2 <= (m.la.len() - 1) * m.params.lemma_score,
    decreases t,
{
    let n = m.la.len() as int;
    let ls = m.params.lemma_score as int;
    if t == 0 {
        assert((n - 1) * ls >= 0) by (nonlinear_arith)
            requires n >= 1, ls >= 0;
    } else {
        lemma_best_upto_identical(m, (t - 1) as nat);
        assert(n * n - 1 == (n - 1) * n + (n - 1)) by (nonlinear_arith);
        lemma_fundamental_div_mod_converse(n * n - 1, n, n - 1, n - 1);
        vstd::arithmetic::div_mod::lemma_div_is_ordered((t - 1) as int, n * n - 1, n);
        vstd::arithmetic::div_mod::lemma_div_pos_is_pos((t - 1) as int, n);
        vstd::arithmetic::div_mod::lemma_mod_bound((t - 1) as int, n);
        let r = ((t - 1) as int) / n + 1;
        let c = ((t - 1) as int) % n + 1;
        lemma_dp_upper_lemma_mode(m, r as nat, c as nat);
        if r == n && c == n {
            vstd::arithmetic::div_mod::lemma_fundamental_div_mod((t - 1) as int, n);
            assert((t - 1) as int == n * ((t - 1) as int / n) + ((t - 1) as int % n));
            assert(n * (n - 1) + (n - 1) == n * n - 1) by (nonlinear_arith);
            assert(false);
        }
        assert(min2(r, c) <= n - 1);
        assert(min2(r, c) * ls <= (n - 1) * ls) by (nonlinear_arith)
            requires ls >= 0, min2(r, c) <= n - 1;
    }
}

/// The full diagonal of depth i, in traceback order: the pair nearest
/// the corner first.
pub open spec fn diagonal_pairs(i: nat) -> Seq<(usize, usize)> {
    Seq::new(i, |t: int| (((i - 1 - t) as usize), ((i - 1 - t) as usize)))
}

/// Against itself, the traceback from a diagonal cell walks the whole
/// diagonal without a gap.
pub proof fn lemma_trace_identical(m: AlignModel, i: nat)
    requires
        model_wf(m),
        m.params.mode is Lemma,
        !m.weighted,
        m.la == m.lb,
        i <= m.la.len(),
        m.params.lemma_score >= 1,
    ensures
        trace_pairs(m, i, i) == diagonal_pairs(i),
        trace_gaps(m, i, i) == 0,
    decreases i,
{
    let ls = m.params.lemma_score as int;
    if i == 0 {
        assert(trace_pairs(m, i, i) =~= diagonal_pairs(i));
    } else {
        lemma_trace_identical(m, (i - 1) as nat);
        lemma_dp_diagonal_identical(m, i);
        lemma_dp_diagonal_identical(m, (i - 1) as nat);
        assert(dp(m, i, i) == i * ls);
        assert(i * ls >= 1) by (nonlinear_arith)
            requires ls >= 1, i >= 1;
        assert(m.la[i - 1] == m.lb[i - 1]);
        assert(score_at(m, i as int, i as int) == ls);
        assert((i - 1) * ls + ls == i * ls) by (nonlinear_arith);
        let p = (((i - 1) as usize), ((i - 1) as usize));
        assert(trace_pairs(m, i, i) == seq![p] + trace_pairs(m, (i - 1) as nat, (i - 1) as nat));
        assert(seq![p] + diagonal_pairs((i - 1) as nat) =~= diagonal_pairs(i));
    }
}

/// Every pair of the diagonal is a lemma match of a sequence against
/// itself.
pub proof fn lemma_diagonal_counts(la: Seq<u32>, i: nat)
    requires
        i <= la.len(),
        la.len() <= usize::MAX,
    ensures
        count_pairs(diagonal_pairs(i), lemma_match_pred(la, la)) == i,
    decreases i,
{
    if i > 0 {
        lemma_diagonal_counts(la, (i - 1) as nat);
        lemma_count_first(diagonal_pairs(i), lemma_match_pred(la, la));
        assert(diagonal_pairs(i).skip(1) =~= diagonal_pairs((i - 1) as nat));
        assert(diagonal_pairs(i)[0] == (((i - 1) as usize), ((i - 1) as usize)));
        assert(lemma_match_pred(la, la)(diagonal_pairs(i)[0]));
    }
}

/// A sequence aligned against itself is always accepted in lemma mode:
/// the best cell is the corner, the traceback is the full diagonal with
/// no gap, and every aligned pair is a lemma match. In particular the
/// alignment starts at position 0 on both sides and its core
/// similarity is exact.
pub proof fn lemma_identical_sequences_accepted(m: AlignModel)
    requires
        model_wf(m),
        m.params.mode is Lemma,
        !m.weighted,
        m.la == m.lb,
        1 <= m.params.min_length <= m.la.len(),
        m.params.lemma_score >= 1,
        m.params.min_similarity <= 1000,
    ensures
        align_accepted(m),
        accepted_pairs(m) == diagonal_pairs(m.la.len()),
        accepted_pairs(m).len() == m.la.len(),
        count_pairs(accepted_pairs(m), lemma_match_pred(m.la, m.lb)) == m.la.len(),
        trace_gaps(m, best(m).0 as nat, best(m).1 as nat) == 0,
        accepted_pairs(m).last() == (0usize, 0usize),
        best(m).2 == m.la.len() * m.params.lemma_score,
{
    let n = m.la.len() as int;
    let ls = m.params.lemma_score as int;
    let nn = (n * n) as nat;
    assert(n * n >= 1) by (nonlinear_arith)
        requires n >= 1;
    lemma_best_upto_identical(m, (nn - 1) as nat);
    lemma_dp_diagonal_identical(m, n as nat);
    assert(n * n - 1 == (n - 1) * n + (n - 1)) by (nonlinear_arith);
    lemma_fundamental_div_mod_converse(n * n - 1, n, n - 1, n - 1);
    assert((n - 1) * ls + ls == n * ls) by (nonlinear_arith);
    assert(best_upto(m, nn) == (n, n, n * ls));
    assert(best(m) == (n, n, n * ls));
    lemma_trace_identical(m, n as nat);
    assert(accepted_pairs(m) == diagonal_pairs(n as nat));
    lemma_diagonal_counts(m.la, n as nat);
    assert(n * ls >= m.params.min_length * ls) by (nonlinear_arith)
        requires ls >= 0, n >= m.params.min_length;
    assert(m.params.min_length * ls / 2 <= m.params.min_length * ls) by {
        vstd::arithmetic::div_mod::lemma_div_is_ordered_by_denominator(
            m.params.min_length * ls,
            1,
            2,
        );
        vstd::arithmetic::div_mod::lemma_div_pos_is_pos(m.params.min_length * ls, 2);
        vstd::arithmetic::div_mod::lemma_div_basics(m.params.min_length * ls);
    }
    assert(1000 * n >= m.params.min_similarity * n) by (nonlinear_arith)
        requires n >= 0, m.params.min_similarity <= 1000;
    assert(diagonal_pairs(n as nat)[0] == (((n - 1) as usize), ((n - 1) as usize)));
    assert(diagonal_pairs(n as nat).last() == (0usize, 0usize));
}

/// Bundle the borrowed inputs of an aligner call into one model value.
pub open spec fn mk_model(
    la: Seq<u32>,
    lb: Seq<u32>,
    ra: Seq<u32>,
    rb: Seq<u32>,
    wa: Seq<u32>,
    wb: Seq<u32>,
    weighted: bool,
    params: ComparisonParams,
) -> AlignModel {
    AlignModel { la, lb, ra, rb, wa, wb, weighted, params }
}

/// An all-zero root sequence of the given length.
pub open spec fn zero_seq(n: nat) -> Seq<u32> {
    Seq::new(n, |i: int| 0u32)
}

/// Get the per-mille weight for a lemma id, with bounds check and default.
fn get_weight(lemma_id: u32, weights: &[u32]) -> (r: u32)
    ensures
        r == weight_of(weights@, lemma_id),
{
    let idx = lemma_id as usize;
    if idx < weights.len() && weights[idx] > 0 {
        weights[idx]
    } else {
        1000
    }
}

/// Substitution score for a diagonal step without weighting.
fn calculate_match_score(
    lemma_a: u32,
    lemma_b: u32,
    root_a: u32,
    root_b: u32,
    params: &ComparisonParams,
) -> (r: i64)
    ensures
        r == sub_score(
            lemma_a,
            lemma_b,
            root_a,
            root_b,
            Seq::<u32>::empty(),
            Seq::<u32>::empty(),
            false,
            *params,
        ),
{
    match params.mode {
        MatchMode::Lemma => {
            if lemma_a == lemma_b {
                params.lemma_score as i64
            } else {
                params.mismatch_penalty as i64
            }
        },
        MatchMode::Root => {
            if root_a == root_b && root_a != 0 {
                params.lemma_score as i64
            } else {
                params.mismatch_penalty as i64
            }
        },
        MatchMode::Combined => {
            if lemma_a == lemma_b {
                params.lemma_score as i64
            } else if root_a == root_b && root_a != 0 {
                params.root_score as i64
            } else {
                params.mismatch_penalty as i64
            }
        },
    }
}

/// Substitution score for a diagonal step with per-mille IDF weighting:
/// a lemma match is scaled by min(w_a, w_b) / 1000 and truncated.
fn calculate_weighted_match_score(
    lemma_a: u32,
    lemma_b: u32,
    root_a: u32,
    root_b: u32,
    weights_a: &[u32],
    weights_b: &[u32],
    params: &ComparisonParams,
) -> (r: i64)
    requires
        params.lemma_score >= 0,
        weights_wf(weights_a@),
        weights_wf(weights_b@),
    ensures
        r == sub_score(
            lemma_a,
            lemma_b,
            root_a,
            root_b,
            weights_a@,
            weights_b@,
            true,
            *params,
        ),
{
    match params.mode {
        MatchMode::Lemma => {
            if lemma_a == lemma_b {
                let w_a = get_weight(lemma_a, weights_a);
                let w_b = get_weight(lemma_b, weights_b);
                let w = if w_a <= w_b {
                    w_a
                } else {
                    w_b
                };
                assert(w <= 3000);
                let ls = params.lemma_score as u64;
                proof {
                    assert((ls as int) * (w as int) <= 0x7fffffff * 3000) by (nonlinear_arith)
                        requires 0 <= (ls as int) <= 0x7fffffff, 0 <= (w as int) <= 3000;
                }
                ((ls * w as u64) / 1000) as i64
            } else {
                params.mismatch_penalty as i64
            }
        },
        MatchMode::Root => {
            if root_a == root_b && root_a != 0 {
                params.lemma_score as i64
            } else {
                params.mismatch_penalty as i64
            }
        },
        MatchMode::Combined => {
            if lemma_a == lemma_b {
                let w_a = get_weight(lemma_a, weights_a);
                let w_b = get_weight(lemma_b, weights_b);
                let w = if w_a <= w_b {
                    w_a
                } else {
                    w_b
                };
                assert(w <= 3000);
                let ls = params.lemma_score as u64;
                proof {
                    assert((ls as int) * (w as int) <= 0x7fffffff * 3000) by (nonlinear_arith)
                        requires 0 <= (ls as int) <= 0x7fffffff, 0 <= (w as int) <= 3000;
                }
                ((ls * w as u64) / 1000) as i64
            } else if root_a == root_b && root_a != 0 {
                params.root_score as i64
            } else {
                params.mismatch_penalty as i64
            }
        },
    }
}

/// Count root matches in aligned pairs, including lemma matches whose
/// roots also agree; a root of 0 never matches.
#[verifier::loop_isolation(false)]
pub fn count_root_matches(
    aligned_pairs: &[(usize, usize)],
    _lemmas_a: &[u32],
    _lemmas_b: &[u32],
    roots_a: &[u32],
    roots_b: &[u32],
) -> (r: u32)
    requires
        aligned_pairs@.len() <= u32::MAX,
    ensures
        r == count_pairs(aligned_pairs@, root_match_pred(roots_a@, roots_b@)),
{
    let ghost pred = root_match_pred(roots_a@, roots_b@);
    let mut count: u32 = 0;
    let mut k: usize = 0;
    while k < aligned_pairs.len()
        invariant
            k <= aligned_pairs@.len() <= u32::MAX,
            count == count_pairs(aligned_pairs@.take(k as int), pred),
            0 <= count <= k,
        decreases aligned_pairs@.len() - k,
    {
        let (i, j) = aligned_pairs[k];
        let root_a = if i < roots_a.len() {
            roots_a[i]
        } else {
            0
        };
        let root_b = if j < roots_b.len() {
            roots_b[j]
        } else {
            0
        };
        if root_a == root_b && root_a != 0 {
            count = count + 1;
        }
        proof {
            assert(aligned_pairs@.take(k + 1).drop_last() =~= aligned_pairs@.take(k as int));
            assert(aligned_pairs@.take(k + 1).last() == aligned_pairs@[k as int]);
            lemma_count_nonneg(aligned_pairs@.take(k as int), pred);
            assert(pred(aligned_pairs@[k as int]) == (root_a == root_b && root_a != 0));
            assert(count_pairs(aligned_pairs@.take(k + 1), pred) == count_pairs(
                aligned_pairs@.take(k as int),
                pred,
            ) + if pred(aligned_pairs@[k as int]) {
                1int
            } else {
                0int
            });
        }
        k = k + 1;
    }
    proof {
        assert(aligned_pairs@.take(aligned_pairs@.len() as int) =~= aligned_pairs@);
    }
    count
}

/// Count of positions of a whose lemma occurs anywhere in b.
pub open spec fn count_contained(a: Seq<u32>, b: Seq<u32>) -> int
    decreases a.len(),
{
    if a.len() == 0 {
        0
    } else {
        count_contained(a.drop_last(), b) + if b.contains(a.last()) {
            1int
        } else {
            0int
        }
    }
}

pub proof fn lemma_count_contained_mono(a: Seq<u32>, b: Seq<u32>, k: int)
    requires
        0 <= k <= a.len(),
    ensures
        count_contained(a.take(k), b) <= count_contained(a, b),
        count_contained(a, b) >= 0,
    decreases a.len(),
{
    if a.len() == 0 {
        assert(a.take(k) =~= a);
    } else if k == a.len() {
        assert(a.take(k) =~= a);
        lemma_count_contained_mono(a.drop_last(), b, a.len() - 1);
    } else {
        assert(a.drop_last().take(k) =~= a.take(k));
        lemma_count_contained_mono(a.drop_last(), b, k);
    }
}

/// Whether x occurs in the slice.
fn slice_contains_u32(s: &[u32], x: u32) -> (r: bool)
    ensures
        r == s@.contains(x),
{
    let mut k: usize = 0;
    while k < s.len()
        invariant
            k <= s@.len(),
            forall|t: int| 0 <= t < k ==> s@[t] != x,
        decreases s@.len() - k,
    {
        if s[k] == x {
            return true;
        }
        k = k + 1;
    }
    false
}

/// Quick check whether two sequences might have a significant alignment:
/// counts positions of seq_a whose lemma occurs in seq_b, stopping as
/// soon as min_shared is reached.
#[verifier::loop_isolation(false)]
pub fn quick_similarity_check(seq_a: &[u32], seq_b: &[u32], min_shared: usize) -> (r: bool)
    ensures
        r == (seq_a@.len() >= min_shared && seq_b@.len() >= min_shared && count_contained(
            seq_a@,
            seq_b@,
        ) >= max2(min_shared as int, 1)),
{
    if seq_a.len() < min_shared || seq_b.len() < min_shared {
        return false;
    }
    let mut count: usize = 0;
    let mut k: usize = 0;
    while k < seq_a.len()
        invariant
            k <= seq_a@.len(),
            seq_a@.len() >= min_shared,
            seq_b@.len() >= min_shared,
            count == count_contained(seq_a@.take(k as int), seq_b@),
            count < max2(min_shared as int, 1),
        decreases seq_a@.len() - k,
    {
        let present = slice_contains_u32(seq_b, seq_a[k]);
        proof {
            assert(seq_a@.take(k + 1).drop_last() =~= seq_a@.take(k as int));
            assert(seq_a@.take(k + 1).last() == seq_a@[k as int]);
            assert(count_contained(seq_a@.take(k + 1), seq_b@) == count_contained(
                seq_a@.take(k as int),
                seq_b@,
            ) + if seq_b@.contains(seq_a@[k as int]) {
                1int
            } else {
                0int
            });
        }
        if present {
            count = count + 1;
            if count >= min_shared {
                proof {
                    lemma_count_contained_mono(seq_a@, seq_b@, k + 1);
                    assert(seq_a@.take(seq_a@.len() as int) =~= seq_a@);
                }
                return true;
            }
        }
        k = k + 1;
    }
    proof {
        assert(seq_a@.take(seq_a@.len() as int) =~= seq_a@);
    }
    false
}

/// Copy of the pairs in reverse order.
fn reversed_pairs(v: &Vec<(usize, usize)>) -> (r: Vec<(usize, usize)>)
    ensures
        r@ == v@.reverse(),
{
    let mut r: Vec<(usize, usize)> = Vec::new();
    let mut k = v.len();
    while k > 0
        invariant
            k <= v@.len(),
            r@.len() == v@.len() - k,
            forall|t: int| 0 <= t < r@.len() ==> #[trigger] r@[t] == v@[v@.len() - 1 - t],
        decreases k,
    {
        k = k - 1;
        r.push(v[k]);
    }
    proof {
        assert(r@ =~= v@.reverse());
    }
    r
}

/// Flat row-major index of cell (r, c) in a matrix with `width` columns.
pub open spec fn cell_idx(width: int, r: int, c: int) -> int {
    r * width + c
}

/// Row and column can be recovered from a flat index, so distinct cells
/// have distinct flat indices.
pub proof fn lemma_cell_idx_inverse(width: int, r: int, c: int)
    requires
        width > 0,
        0 <= c < width,
        0 <= r,
    ensures
        cell_idx(width, r, c) / width == r,
        cell_idx(width, r, c) % width == c,
{
    lemma_fundamental_div_mod_converse(r * width + c, width, r, c);
}

/// Flat indices of in-range cells are in range of the whole buffer.
pub proof fn lemma_cell_idx_in_range(width: int, rows: int, r: int, c: int)
    requires
        width > 0,
        0 <= c < width,
        0 <= r <= rows,
    ensures
        0 <= cell_idx(width, r, c) < (rows + 1) * width,
{
    vstd::arithmetic::mul::lemma_mul_inequality(r, rows, width);
    vstd::arithmetic::mul::lemma_mul_nonnegative(r, width);
    assert((rows + 1) * width == rows * width + width) by (nonlinear_arith);
}

/// Fill the Smith-Waterman matrix bottom-up and track the first maximal
/// cell in row-major scan order, returning the buffer and the argmax
/// cell (row, column, score).
#[verifier::loop_isolation(false)]
#[verifier::rlimit(100)]
fn fill_matrix(
    lemmas_a: &[u32],
    lemmas_b: &[u32],
    roots_a: &[u32],
    roots_b: &[u32],
    weights_a: &[u32],
    weights_b: &[u32],
    weighted: bool,
    params: &ComparisonParams,
) -> (res: (Vec<i64>, usize, usize, i64))
    requires
        model_wf(
            mk_model(
                lemmas_a@,
                lemmas_b@,
                roots_a@,
                roots_b@,
                weights_a@,
                weights_b@,
                weighted,
                *params,
            ),
        ),
        lemmas_a@.len() > 0,
        lemmas_b@.len() > 0,
    ensures
        ({
            let m = mk_model(
                lemmas_a@,
                lemmas_b@,
                roots_a@,
                roots_b@,
                weights_a@,
                weights_b@,
                weighted,
                *params,
            );
            let width = lemmas_b@.len() + 1;
            &&& res.0@.len() == (lemmas_a@.len() + 1) * width
            &&& forall|r: int, c: int| 0 <= r <= lemmas_a@.len() && 0 <= c < width ==> res.0@[
                #[trigger] cell_idx(width as int, r, c)
            ] == dp(m, r as nat, c as nat)
            &&& res.1 <= lemmas_a@.len()
            &&& res.2 <= lemmas_b@.len()
            &&& res.1 as int == best(m).0
            &&& res.2 as int == best(m).1
            &&& res.3 as int == best(m).2
            &&& res.3 >= 0
        }),
{
    let ghost m = mk_model(
        lemmas_a@,
        lemmas_b@,
        roots_a@,
        roots_b@,
        weights_a@,
        weights_b@,
        weighted,
        *params,
    );
    let n = lemmas_a.len();
    let mm = lemmas_b.len();
    let width = mm + 1;
    proof {
        assert((n + 1) * width <= 0x4000_0000) by (nonlinear_arith)
            requires n < 0x8000, width <= 0x8000;
        assert(step_bound(m) <= 0x2_0000_0000);
    }
    let size = (n + 1) * width;
    let mut h: Vec<i64> = vec![0i64; size];

    let mut max_score: i64 = 0;
    let mut max_i: usize = 0;
    let mut max_j: usize = 0;

    proof {
        assert forall|r: int, c: int| 0 <= r <= n && 0 <= c < width implies h@[
            #[trigger] cell_idx(width as int, r, c)
        ] == (if r < 1 || c == 0 {
            dp(m, r as nat, c as nat)
        } else {
            0
        }) by {
            lemma_cell_idx_in_range(width as int, n as int, r, c);
        }
    }

    proof {
        assert(best_upto(m, 0nat) == (0int, 0int, 0int));
        assert(((1 - 1) * mm) as nat == 0nat);
    }
    let mut i: usize = 1;
    while i <= n
        invariant
            1 <= i <= n + 1,
            h@.len() == size,
            forall|r: int, c: int| 0 <= r <= n && 0 <= c < width ==> h@[#[trigger] cell_idx(
                width as int,
                r,
                c,
            )] == (if r < i || c == 0 {
                dp(m, r as nat, c as nat)
            } else {
                0
            }),
            max_i <= n,
            max_j <= mm,
            0 <= max_score,
            max_i as int == best_upto(m, ((i - 1) * mm) as nat).0,
            max_j as int == best_upto(m, ((i - 1) * mm) as nat).1,
            max_score as int == best_upto(m, ((i - 1) * mm) as nat).2,
        decreases n + 1 - i,
    {
        let lemma_a = lemmas_a[i - 1];
        let root_a = if i - 1 < roots_a.len() {
            roots_a[i - 1]
        } else {
            0
        };
        proof {
            lemma_cell_idx_in_range(width as int, n as int, i as int, mm as int);
            lemma_cell_idx_in_range(width as int, n as int, i - 1, mm as int);
        }
        let prev_off = (i - 1) * width;
        let off = i * width;
        let mut j: usize = 1;
        while j <= mm
            invariant
                1 <= j <= mm + 1,
                h@.len() == size,
                forall|r: int, c: int| 0 <= r <= n && 0 <= c < width ==> h@[#[trigger] cell_idx(
                    width as int,
                    r,
                    c,
                )] == (if r < i || (r == i && c < j) || c == 0 {
                    dp(m, r as nat, c as nat)
                } else {
                    0
                }),
                max_i <= n,
                max_j <= mm,
                0 <= max_score,
                max_i as int == best_upto(m, ((i - 1) * mm + (j - 1)) as nat).0,
                max_j as int == best_upto(m, ((i - 1) * mm + (j - 1)) as nat).1,
                max_score as int == best_upto(m, ((i - 1) * mm + (j - 1)) as nat).2,
            decreases mm + 1 - j,
    {
            let lemma_b = lemmas_b[j - 1];
            let root_b = if j - 1 < roots_b.len() {
                roots_b[j - 1]
            } else {
                0
            };
            let sc_step: i64 = if weighted {
                calculate_weighted_match_score(
                    lemma_a,
                    lemma_b,
                    root_a,
                    root_b,
                    weights_a,
                    weights_b,
                    params,
                )
            } else {
                calculate_match_score(lemma_a, lemma_b, root_a, root_b, params)
            };
            proof {
                assert(sc_step == score_at(m, i as int, j as int));
                lemma_dp_bound(m, (i - 1) as nat, (j - 1) as nat);
                lemma_dp_bound(m, (i - 1) as nat, j as nat);
                lemma_dp_bound(m, i as nat, (j - 1) as nat);
                lemma_score_at_bound(m, i as int, j as int);
                assert(((i - 1) + (j - 1)) * step_bound(m) <= 0x2000_0000 * step_bound(m)
                    && ((i - 1) + j) * step_bound(m) <= 0x2000_0000 * step_bound(m)
                    && (i + (j - 1)) * step_bound(m) <= 0x2000_0000 * step_bound(m)
                    && 0x2000_0000 * step_bound(m) <= 0x2000_0000 * 0x2_0000_0000)
                    by (nonlinear_arith)
                    requires
                        0 <= step_bound(m) <= 0x2_0000_0000,
                        1 <= i <= n < 0x8000,
                        1 <= j <= mm < 0x8000;
                assert(prev_off + (j - 1) == cell_idx(width as int, i - 1, j - 1));
                assert(prev_off + j == cell_idx(width as int, i - 1, j as int));
                assert(off + (j - 1) == cell_idx(width as int, i as int, j - 1));
                assert(off + j == cell_idx(width as int, i as int, j as int));
                lemma_cell_idx_in_range(width as int, n as int, i - 1, j - 1);
                lemma_cell_idx_in_range(width as int, n as int, i - 1, j as int);
                lemma_cell_idx_in_range(width as int, n as int, i as int, j - 1);
                lemma_cell_idx_in_range(width as int, n as int, i as int, j as int);
            }
            let diag = h[prev_off + (j - 1)] + sc_step;
            let up = h[prev_off + j] + (params.gap_penalty as i64);
            let left = h[off + (j - 1)] + (params.gap_penalty as i64);
            let mut sc: i64 = 0;
            if diag > sc {
                sc = diag;
            }
            if up > sc {
                sc = up;
            }
            if left > sc {
                sc = left;
            }
            proof {
                assert(dp(m, i as nat, j as nat) == sc as int);
            }
            let ghost h0 = h@;
            h.set(off + j, sc);
            proof {
                assert forall|r: int, c: int| 0 <= r <= n && 0 <= c < width implies h@[
                    #[trigger] cell_idx(width as int, r, c)
                ] == (if r < i || (r == i && c < j + 1) || c == 0 {
                    dp(m, r as nat, c as nat)
                } else {
                    0
                }) by {
                    lemma_cell_idx_inverse(width as int, r, c);
                    lemma_cell_idx_inverse(width as int, i as int, j as int);
                    lemma_cell_idx_in_range(width as int, n as int, r, c);
                    if r == i && c == j {
                        assert(h@[cell_idx(width as int, r, c)] == sc as int);
                    } else {
                        assert(cell_idx(width as int, r, c) != cell_idx(
                            width as int,
                            i as int,
                            j as int,
                        ));
                        assert(h@[cell_idx(width as int, r, c)] == h0[cell_idx(
                            width as int,
                            r,
                            c,
                        )]);
                    }
                }
                let t = ((i - 1) * mm + (j - 1)) as int;
                assert(0 <= t && t + 1 <= n * mm && (i - 1) * mm + j == t + 1 && t == (i - 1) * mm
                    + (j - 1)) by (nonlinear_arith)
                    requires t == (i - 1) * mm + (j - 1), 1 <= i <= n, 1 <= j <= mm;
                lemma_fundamental_div_mod_converse(t, mm as int, (i - 1) as int, (j - 1) as int);
                assert(best_upto(m, (t + 1) as nat) == (if dp(m, i as nat, j as nat) > best_upto(
                    m,
                    t as nat,
                ).2 {
                    (i as int, j as int, dp(m, i as nat, j as nat))
                } else {
                    best_upto(m, t as nat)
                }));
            }
            if sc > max_score {
                max_score = sc;
                max_i = i;
                max_j = j;
            }
            j = j + 1;
        }
        proof {
            assert((i - 1) * mm + mm == i * mm) by (nonlinear_arith);
        }
        i = i + 1;
    }
    proof {
        assert(m.la.len() * m.lb.len() == (n * mm) as nat);
        assert(max_i as int == best(m).0 && max_j as int == best(m).1 && max_score as int == best(
            m,
        ).2);
    }
    (h, max_i, max_j, max_score)
}

/// Walk back from the argmax cell, recording diagonal pairs and
/// classifying each as lemma match, root-only match or substitution.
/// Returns (pairs, lemma_matches, substitutions, root_only_matches,
/// gaps, match_weight_sum); the pairs come out in traceback order.
#[verifier::loop_isolation(false)]
#[verifier::rlimit(100)]
fn traceback(
    h: &Vec<i64>,
    lemmas_a: &[u32],
    lemmas_b: &[u32],
    roots_a: &[u32],
    roots_b: &[u32],
    weights_a: &[u32],
    weights_b: &[u32],
    weighted: bool,
    params: &ComparisonParams,
    max_i: usize,
    max_j: usize,
) -> (res: (Vec<(usize, usize)>, u32, u32, u32, u32, u64))
    requires
        model_wf(
            mk_model(
                lemmas_a@,
                lemmas_b@,
                roots_a@,
                roots_b@,
                weights_a@,
                weights_b@,
                weighted,
                *params,
            ),
        ),
        max_i <= lemmas_a@.len(),
        max_j <= lemmas_b@.len(),
        h@.len() == (lemmas_a@.len() + 1) * (lemmas_b@.len() + 1),
        forall|r: int, c: int| 0 <= r <= lemmas_a@.len() && 0 <= c < lemmas_b@.len() + 1 ==> h@[
            #[trigger] cell_idx(lemmas_b@.len() as int + 1, r, c)
        ] == dp(
            mk_model(
                lemmas_a@,
                lemmas_b@,
                roots_a@,
                roots_b@,
                weights_a@,
                weights_b@,
                weighted,
                *params,
            ),
            r as nat,
            c as nat,
        ),
    ensures
        ({
            let m = mk_model(
                lemmas_a@,
                lemmas_b@,
                roots_a@,
                roots_b@,
                weights_a@,
                weights_b@,
                weighted,
                *params,
            );
            let pairs = trace_pairs(m, max_i as nat, max_j as nat);
            &&& res.0@ == pairs
            &&& res.1 == count_pairs(pairs, lemma_match_pred(m.la, m.lb))
            &&& res.2 == count_pairs(pairs, substitution_pred(m.la, m.lb, m.ra, m.rb))
            &&& res.3 == count_pairs(pairs, root_only_pred(m.la, m.lb, m.ra, m.rb))
            &&& res.4 == trace_gaps(m, max_i as nat, max_j as nat)
            &&& res.5 == if weighted {
                weight_sum(m, pairs)
            } else {
                0int
            }
        }),
{
    let ghost m = mk_model(
        lemmas_a@,
        lemmas_b@,
        roots_a@,
        roots_b@,
        weights_a@,
        weights_b@,
        weighted,
        *params,
    );
    let n = lemmas_a.len();
    let mm = lemmas_b.len();
    let width = mm + 1;
    proof {
        assert((n + 1) * width <= 0x4000_0000) by (nonlinear_arith)
            requires n < 0x8000, width <= 0x8000;
    }
    let ghost lm_pred = lemma_match_pred(m.la, m.lb);
    let ghost ro_pred = root_only_pred(m.la, m.lb, m.ra, m.rb);
    let ghost sb_pred = substitution_pred(m.la, m.lb, m.ra, m.rb);
    let ghost total_pairs = trace_pairs(m, max_i as nat, max_j as nat);
    let ghost total_gaps = trace_gaps(m, max_i as nat, max_j as nat);
    proof {
        lemma_trace_pairs_sorted(m, max_i as nat, max_j as nat);
    }

    let mut ti = max_i;
    let mut tj = max_j;
    let mut pairs: Vec<(usize, usize)> = Vec::new();
    let mut gaps: u32 = 0;
    let mut lemma_matches: u32 = 0;
    let mut substitutions: u32 = 0;
    let mut root_only_matches: u32 = 0;
    let mut match_weight_sum: u64 = 0;

    let mut cont = true;
    while cont
        invariant
            ti <= max_i,
            tj <= max_j,
            total_pairs == pairs@ + trace_pairs(m, ti as nat, tj as nat),
            total_gaps == gaps + trace_gaps(m, ti as nat, tj as nat),
            pairs@.len() + trace_pairs(m, ti as nat, tj as nat).len() == total_pairs.len(),
            lemma_matches == count_pairs(pairs@, lm_pred),
            root_only_matches == count_pairs(pairs@, ro_pred),
            substitutions == count_pairs(pairs@, sb_pred),
            match_weight_sum == if weighted {
                weight_sum(m, pairs@)
            } else {
                0int
            },
            match_weight_sum <= 3000 * pairs@.len(),
            !cont ==> ti == 0 || tj == 0 || dp(m, ti as nat, tj as nat) <= 0,
        decreases ti + tj + (if cont {
            1int
        } else {
            0int
        }),
    {
        if ti == 0 || tj == 0 {
            cont = false;
            continue;
        }
        proof {
            assert(ti * width + tj == cell_idx(width as int, ti as int, tj as int));
            lemma_cell_idx_in_range(width as int, n as int, ti as int, tj as int);
        }
        let cur = h[ti * width + tj];
        if cur <= 0 {
            cont = false;
            continue;
        }
        let idx_a = ti - 1;
        let idx_b = tj - 1;
        let lemma_a = lemmas_a[idx_a];
        let lemma_b = lemmas_b[idx_b];
        let root_a = if idx_a < roots_a.len() {
            roots_a[idx_a]
        } else {
            0
        };
        let root_b = if idx_b < roots_b.len() {
            roots_b[idx_b]
        } else {
            0
        };
        let sc_step: i64 = if weighted {
            calculate_weighted_match_score(
                lemma_a,
                lemma_b,
                root_a,
                root_b,
                weights_a,
                weights_b,
                params,
            )
        } else {
            calculate_match_score(lemma_a, lemma_b, root_a, root_b, params)
        };
        proof {
            assert(sc_step == score_at(m, ti as int, tj as int));
            lemma_dp_bound(m, (ti - 1) as nat, (tj - 1) as nat);
            lemma_dp_bound(m, (ti - 1) as nat, tj as nat);
            lemma_score_at_bound(m, ti as int, tj as int);
            assert(((ti - 1) + (tj - 1)) * step_bound(m) <= 0x2000_0000 * step_bound(m)
                && ((ti - 1) + tj) * step_bound(m) <= 0x2000_0000 * step_bound(m)
                && 0x2000_0000 * step_bound(m) <= 0x2000_0000 * 0x2_0000_0000)
                by (nonlinear_arith)
                requires
                    0 <= step_bound(m) <= 0x2_0000_0000,
                    1 <= ti <= n < 0x8000,
                    1 <= tj <= mm < 0x8000;
            lemma_count_nonneg(pairs@, lm_pred);
            lemma_count_nonneg(pairs@, ro_pred);
            lemma_count_nonneg(pairs@, sb_pred);
            lemma_trace_pairs_sorted(m, ti as nat, tj as nat);
            assert((ti - 1) * width + (tj - 1) == cell_idx(width as int, ti - 1, tj - 1));
            assert((ti - 1) * width + tj == cell_idx(width as int, ti - 1, tj as int));
            lemma_cell_idx_in_range(width as int, n as int, ti - 1, tj - 1);
            lemma_cell_idx_in_range(width as int, n as int, ti - 1, tj as int);
        }
        let diag = h[(ti - 1) * width + (tj - 1)];
        let up = h[(ti - 1) * width + tj];
        let ghost prev_pairs = pairs@;
        if cur == diag + sc_step {
            pairs.push((idx_a, idx_b));
            let ghost p = (idx_a, idx_b);
            proof {
                lemma_count_push(prev_pairs, lm_pred, p);
                lemma_count_push(prev_pairs, ro_pred, p);
                lemma_count_push(prev_pairs, sb_pred, p);
                lemma_weight_sum_push(m, prev_pairs, p);
                assert(trace_pairs(m, ti as nat, tj as nat) == seq![p] + trace_pairs(
                    m,
                    (ti - 1) as nat,
                    (tj - 1) as nat,
                ));
                assert(trace_gaps(m, ti as nat, tj as nat) == trace_gaps(
                    m,
                    (ti - 1) as nat,
                    (tj - 1) as nat,
                ));
                assert(prev_pairs + (seq![p] + trace_pairs(m, (ti - 1) as nat, (tj - 1) as nat))
                    =~= prev_pairs.push(p) + trace_pairs(m, (ti - 1) as nat, (tj - 1) as nat));
            }
            if lemma_a == lemma_b {
                lemma_matches = lemma_matches + 1;
                if weighted {
                    let w_a = get_weight(lemma_a, weights_a);
                    let w_b = get_weight(lemma_b, weights_b);
                    let w = if w_a <= w_b {
                        w_a
                    } else {
                        w_b
                    };
                    proof {
                        assert(w <= 3000);
                    }
                    match_weight_sum = match_weight_sum + w as u64;
                }
            } else if root_a == root_b && root_a != 0 {
                root_only_matches = root_only_matches + 1;
            } else {
                substitutions = substitutions + 1;
            }
            ti = ti - 1;
            tj = tj - 1;
        } else if cur == up + (params.gap_penalty as i64) {
            proof {
                assert(trace_pairs(m, ti as nat, tj as nat) == trace_pairs(
                    m,
                    (ti - 1) as nat,
                    tj as nat,
                ));
                assert(trace_gaps(m, ti as nat, tj as nat) == 1 + trace_gaps(
                    m,
                    (ti - 1) as nat,
                    tj as nat,
                ));
                assert(gaps + trace_gaps(m, ti as nat, tj as nat) <= max_i + max_j);
            }
            gaps = gaps + 1;
            ti = ti - 1;
        } else {
            proof {
                assert(trace_pairs(m, ti as nat, tj as nat) == trace_pairs(
                    m,
                    ti as nat,
                    (tj - 1) as nat,
                ));
                assert(trace_gaps(m, ti as nat, tj as nat) == 1 + trace_gaps(
                    m,
                    ti as nat,
                    (tj - 1) as nat,
                ));
                assert(gaps + trace_gaps(m, ti as nat, tj as nat) <= max_i + max_j);
            }
            gaps = gaps + 1;
            tj = tj - 1;
        }
    }
    proof {
        assert(trace_pairs(m, ti as nat, tj as nat) =~= Seq::<(usize, usize)>::empty());
        assert(trace_gaps(m, ti as nat, tj as nat) == 0);
        assert(pairs@ + trace_pairs(m, ti as nat, tj as nat) =~= pairs@);
        assert(pairs@ == total_pairs);
    }
    (pairs, lemma_matches, substitutions, root_only_matches, gaps, match_weight_sum)
}

/// Shared implementation of the aligner: fill the DP matrix, trace back
/// from its first maximal cell, then apply the acceptance gates.
#[verifier::loop_isolation(false)]
#[verifier::rlimit(100)]
fn align_core(
    lemmas_a: &[u32],
    lemmas_b: &[u32],
    roots_a: &[u32],
    roots_b: &[u32],
    weights_a: &[u32],
    weights_b: &[u32],
    weighted: bool,
    params: &ComparisonParams,
) -> (r: Option<Alignment>)
    requires
        model_wf(
            mk_model(
                lemmas_a@,
                lemmas_b@,
                roots_a@,
                roots_b@,
                weights_a@,
                weights_b@,
                weighted,
                *params,
            ),
        ),
    ensures
        ({
            let m = mk_model(
                lemmas_a@,
                lemmas_b@,
                roots_a@,
                roots_b@,
                weights_a@,
                weights_b@,
                weighted,
                *params,
            );
            &&& (r is Some <==> align_accepted(m))
            &&& (r matches Some(al) ==> alignment_matches_model(al, m))
        }),
{
    let ghost m = mk_model(
        lemmas_a@,
        lemmas_b@,
        roots_a@,
        roots_b@,
        weights_a@,
        weights_b@,
        weighted,
        *params,
    );
    let n = lemmas_a.len();
    let mm = lemmas_b.len();
    if n == 0 || mm == 0 {
        return None;
    }

    let (h, max_i, max_j, max_score) = fill_matrix(
        lemmas_a,
        lemmas_b,
        roots_a,
        roots_b,
        weights_a,
        weights_b,
        weighted,
        params,
    );

    // Early exit if no significant alignment.
    proof {
        assert((params.min_length as u128 as int) * (params.lemma_score as u128 as int)
            < 0x1_0000_0000_0000_0000_0000_0000) by (nonlinear_arith)
            requires
                0 <= (params.min_length as u128 as int) < 0x1_0000_0000_0000_0000,
                0 <= (params.lemma_score as u128 as int) < 0x1_0000_0000;
    }
    let threshold = (params.min_length as u128 * params.lemma_score as u128) / 2;
    proof {
        assert(threshold as int == score_threshold(*params));
    }
    if (max_score as u128) < threshold {
        return None;
    }

    // Traceback from the argmax cell.
    let (pairs, lemma_matches, substitutions, root_only_matches, gaps, match_weight_sum) =
        traceback(
        &h,
        lemmas_a,
        lemmas_b,
        roots_a,
        roots_b,
        weights_a,
        weights_b,
        weighted,
        params,
        max_i,
        max_j,
    );
    proof {
        assert(pairs@ == accepted_pairs(m));
        lemma_trace_pairs_sorted(m, max_i as nat, max_j as nat);
        lemma_count_nonneg(pairs@, lemma_match_pred(m.la, m.lb));
        lemma_count_nonneg(pairs@, root_only_pred(m.la, m.lb, m.ra, m.rb));
    }

    // Check minimum length.
    if pairs.len() < params.min_length {
        return None;
    }

    // Check minimum similarity based on mode.
    let len_u = pairs.len() as u64;
    proof {
        assert((params.min_similarity as u64 as int) * (len_u as int) < 0x4000_0000_0000_0000)
            by (nonlinear_arith)
            requires
                0 <= (params.min_similarity as u64 as int) < 0x1_0000_0000,
                0 <= (len_u as int) < 0x2000_0000;
    }
    let sim_ok: bool;
    let min_s = params.min_similarity as u64;
    match params.mode {
        MatchMode::Lemma => {
            sim_ok = 1000 * (lemma_matches as u64) >= min_s * len_u;
            proof {
                assert(sim_ok == similarity_ok(m, accepted_pairs(m)));
            }
        },
        MatchMode::Root => {
            let root_matches = count_root_matches(
                pairs.as_slice(),
                lemmas_a,
                lemmas_b,
                roots_a,
                roots_b,
            );
            sim_ok = 1000 * (root_matches as u64) >= min_s * len_u;
            proof {
                assert(root_matches == count_pairs(
                    accepted_pairs(m),
                    root_match_pred(m.ra, m.rb),
                ));
                lemma_count_nonneg(pairs@, root_match_pred(m.ra, m.rb));
                assert(sim_ok == similarity_ok(m, accepted_pairs(m)));
            }
        },
        MatchMode::Combined => {
            sim_ok = 1000 * (2 * (lemma_matches as u64) + (root_only_matches as u64)) >= 2 * (
            min_s * len_u);
            proof {
                assert(2 * ((min_s as int) * (len_u as int)) == (2 * (min_s as int)) * (
                len_u as int)) by (nonlinear_arith);
                assert(sim_ok == similarity_ok(m, accepted_pairs(m)));
            }
        },
    }
    if !sim_ok {
        return None;
    }

    // The alignment was built backwards: reverse it and read endpoints.
    let aligned_pairs = reversed_pairs(&pairs);
    let (start_a, start_b) = if aligned_pairs.len() > 0 {
        aligned_pairs[0]
    } else {
        (0, 0)
    };
    let (last_a, last_b) = if aligned_pairs.len() > 0 {
        aligned_pairs[aligned_pairs.len() - 1]
    } else {
        (0, 0)
    };
    proof {
        if pairs@.len() > 0 {
            assert(aligned_pairs@[0] == pairs@[pairs@.len() - 1]);
            assert(aligned_pairs@[aligned_pairs@.len() - 1] == pairs@[0]);
            assert(pairs@[0].0 < max_i && pairs@[0].1 < max_j);
        }
    }
    Some(
        Alignment {
            start_a,
            end_a: last_a + 1,
            start_b,
            end_b: last_b + 1,
            aligned_pairs,
            lemma_matches,
            substitutions,
            root_only_matches,
            gaps,
            score: max_score,
            match_weight_sum,
        },
    )
}

/// The model of an unweighted aligner call.
pub open spec fn unweighted_model(
    la: Seq<u32>,
    lb: Seq<u32>,
    ra: Seq<u32>,
    rb: Seq<u32>,
    params: ComparisonParams,
) -> AlignModel {
    mk_model(la, lb, ra, rb, Seq::empty(), Seq::empty(), false, params)
}

/// The model of a weighted aligner call.
pub open spec fn weighted_model(
    la: Seq<u32>,
    lb: Seq<u32>,
    ra: Seq<u32>,
    rb: Seq<u32>,
    wa: Seq<u32>,
    wb: Seq<u32>,
    params: ComparisonParams,
) -> AlignModel {
    mk_model(la, lb, ra, rb, wa, wb, true, params)
}

/// The model of a lemma-only call, where both root sequences are all
/// zeros (so no root ever matches).
pub open spec fn lemma_only_model(la: Seq<u32>, lb: Seq<u32>, params: ComparisonParams) -> AlignModel {
    let len = max2(la.len() as int, lb.len() as int) as nat;
    unweighted_model(la, lb, zero_seq(len), zero_seq(len), params)
}

/// The mode-specific acceptance gates, stated over the fields of the
/// returned alignment itself: at least min_length aligned pairs, and the
/// mode's similarity at least the per-mille bound.
pub open spec fn alignment_gates(al: Alignment, m: AlignModel) -> bool {
    &&& al.aligned_pairs@.len() >= m.params.min_length
    &&& match m.params.mode {
        MatchMode::Lemma => 1000 * al.lemma_matches >= m.params.min_similarity
            * al.aligned_pairs@.len(),
        MatchMode::Root => 1000 * count_pairs(al.aligned_pairs@, root_match_pred(m.ra, m.rb))
            >= m.params.min_similarity * al.aligned_pairs@.len(),
        MatchMode::Combined => 1000 * (2 * al.lemma_matches + al.root_only_matches) >= 2
            * m.params.min_similarity * al.aligned_pairs@.len(),
    }
}

/// An accepted alignment classifies every aligned pair exactly once and
/// passes the acceptance gates.
pub proof fn lemma_alignment_well_formed(al: Alignment, m: AlignModel)
    requires
        align_accepted(m),
        alignment_matches_model(al, m),
    ensures
        al.counts_wf(),
        alignment_gates(al, m),
{
    let pairs = accepted_pairs(m);
    lemma_counts_partition(m, pairs);
    lemma_count_reverse(pairs, root_match_pred(m.ra, m.rb));
    assert(al.aligned_pairs@.len() == pairs.len());
}

/// Smith-Waterman local alignment with lemma, root, and combined
/// matching. Returns an alignment exactly when the traceback from the
/// best matrix cell passes the length and similarity gates.
pub fn align_sequences(
    lemmas_a: &[u32],
    lemmas_b: &[u32],
    roots_a: &[u32],
    roots_b: &[u32],
    params: &ComparisonParams,
) -> (r: Option<Alignment>)
    requires
        model_wf(unweighted_model(lemmas_a@, lemmas_b@, roots_a@, roots_b@, *params)),
    ensures
        ({
            let m = unweighted_model(lemmas_a@, lemmas_b@, roots_a@, roots_b@, *params);
            &&& (r is Some <==> align_accepted(m))
            &&& (r matches Some(al) ==> alignment_matches_model(al, m) && al.counts_wf()
                && alignment_gates(al, m))
        }),
{
    let ghost m = unweighted_model(lemmas_a@, lemmas_b@, roots_a@, roots_b@, *params);
    let empty: [u32; 0] = [];
    let r = align_core(
        lemmas_a,
        lemmas_b,
        roots_a,
        roots_b,
        &empty,
        &empty,
        false,
        params,
    );
    proof {
        assert(empty@ =~= Seq::<u32>::empty());
        if r is Some {
            lemma_alignment_well_formed(r->Some_0, m);
        }
    }
    r
}

/// Smith-Waterman local alignment with document-internal IDF weighting:
/// a lemma match's reward is scaled by min(w_a, w_b) / 1000, truncated.
/// The weight tables are per-mille values clamped to [500, 3000], with
/// 0 for absent entries.
pub fn align_sequences_weighted(
    lemmas_a: &[u32],
    lemmas_b: &[u32],
    roots_a: &[u32],
    roots_b: &[u32],
    weights_a: &[u32],
    weights_b: &[u32],
    params: &ComparisonParams,
) -> (r: Option<Alignment>)
    requires
        model_wf(
            weighted_model(
                lemmas_a@,
                lemmas_b@,
                roots_a@,
                roots_b@,
                weights_a@,
                weights_b@,
                *params,
            ),
        ),
    ensures
        ({
            let m = weighted_model(
                lemmas_a@,
                lemmas_b@,
                roots_a@,
                roots_b@,
                weights_a@,
                weights_b@,
                *params,
            );
            &&& (r is Some <==> align_accepted(m))
            &&& (r matches Some(al) ==> alignment_matches_model(al, m) && al.counts_wf()
                && alignment_gates(al, m))
        }),
{
    let ghost m = weighted_model(
        lemmas_a@,
        lemmas_b@,
        roots_a@,
        roots_b@,
        weights_a@,
        weights_b@,
        *params,
    );
    let r = align_core(
        lemmas_a,
        lemmas_b,
        roots_a,
        roots_b,
        weights_a,
        weights_b,
        true,
        params,
    );
    proof {
        if r is Some {
            lemma_alignment_well_formed(r->Some_0, m);
        }
    }
    r
}

/// Smith-Waterman local alignment on lemma ids alone: both root
/// sequences are taken as all zeros, so no root ever matches.
pub fn align_lemma_sequences(seq_a: &[u32], seq_b: &[u32], params: &ComparisonParams) -> (r: Option<
    Alignment,
>)
    requires
        model_wf(lemma_only_model(seq_a@, seq_b@, *params)),
    ensures
        ({
            let m = lemma_only_model(seq_a@, seq_b@, *params);
            &&& (r is Some <==> align_accepted(m))
            &&& (r matches Some(al) ==> alignment_matches_model(al, m) && al.counts_wf()
                && alignment_gates(al, m))
        }),
{
    let max_len = if seq_a.len() >= seq_b.len() {
        seq_a.len()
    } else {
        seq_b.len()
    };
    let empty_roots: Vec<u32> = vec![0u32; max_len];
    proof {
        assert(empty_roots@ =~= zero_seq(max_len as nat));
    }
    align_sequences(seq_a, seq_b, empty_roots.as_slice(), empty_roots.as_slice(), params)
}

/// Banded Smith-Waterman entry point. The band is not yet narrowed: the
/// full matrix is computed, so the contract matches the unbanded call.
pub fn align_lemma_sequences_banded(
    seq_a: &[u32],
    seq_b: &[u32],
    params: &ComparisonParams,
    _band: usize,
) -> (r: Option<Alignment>)
    requires
        model_wf(lemma_only_model(seq_a@, seq_b@, *params)),
    ensures
        ({
            let m = lemma_only_model(seq_a@, seq_b@, *params);
            &&& (r is Some <==> align_accepted(m))
            &&& (r matches Some(al) ==> alignment_matches_model(al, m) && al.counts_wf()
                && alignment_gates(al, m))
        }),
{
    align_lemma_sequences(seq_a, seq_b, params)
}

} // verus!
