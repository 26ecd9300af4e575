//! Lemma stream extraction utilities: slicing a book's flat stream,
//! locating pages, and per-book lemma statistics.

use vstd::prelude::*;

use crate::models::{lemma_stream_of, BookLemmaStream, PageLemmas};

verus! {

/// Whether a page carries the given (part, page) coordinates.
pub open spec fn page_matches(p: PageLemmas, part_index: u32, page_id: u32) -> bool {
    p.part_index == part_index && p.page_id == page_id
}

/// Get a slice of lemmas from a book at a global position range. An
/// out-of-range start yields an empty slice; the end is clamped.
pub fn get_lemma_slice(stream: &BookLemmaStream, start: usize, end: usize) -> (r: Vec<u32>)
    requires
        start <= end,
    ensures
        r@ == ({
            let flat = stream.lemmas_spec();
            if start >= flat.len() {
                Seq::<u32>::empty()
            } else if end <= flat.len() {
                flat.subrange(start as int, end as int)
            } else {
                flat.subrange(start as int, flat.len() as int)
            }
        }),
{
    let flat = stream.flat_lemmas();
    if start >= flat.len() {
        let r: Vec<u32> = Vec::new();
        proof {
            assert(r@ =~= Seq::<u32>::empty());
        }
        return r;
    }
    let clamped_end = if end <= flat.len() {
        end
    } else {
        flat.len()
    };
    crate::window::copy_range(&flat, start, clamped_end)
}

/// Find the global position at which a page starts: the flat offset of
/// the first page carrying the given coordinates.
#[verifier::loop_isolation(false)]
pub fn find_position_by_page(stream: &BookLemmaStream, part_index: u32, page_id: u32) -> (r: Option<
    usize,
>)
    requires
        stream.wf(),
    ensures
        (r is None <==> (forall|k: int| 0 <= k < stream.pages@.len() ==> !page_matches(
            #[trigger] stream.pages@[k],
            part_index,
            page_id,
        ))),
        (r matches Some(p) ==> exists|k: int| 0 <= k < stream.pages@.len() && page_matches(
            #[trigger] stream.pages@[k],
            part_index,
            page_id,
        ) && (forall|t: int| 0 <= t < k ==> !page_matches(
            #[trigger] stream.pages@[t],
            part_index,
            page_id,
        )) && p == lemma_stream_of(stream.pages@.take(k)).len()),
{
    let ghost pages = stream.pages@;
    let mut position: usize = 0;
    let mut i: usize = 0;
    while i < stream.pages.len()
        invariant
            i <= pages.len(),
            position == lemma_stream_of(pages.take(i as int)).len(),
            forall|t: int| 0 <= t < i ==> !page_matches(#[trigger] pages[t], part_index, page_id),
        decreases pages.len() - i,
    {
        proof {
            crate::window::lemma_stream_take_succ(pages, i as int);
            crate::window::lemma_stream_prefix_len(pages, i + 1);
        }
        let page = &stream.pages[i];
        if page.part_index == part_index && page.page_id == page_id {
            return Some(position);
        }
        position = position + page.lemma_ids.len();
        i = i + 1;
    }
    None
}

/// Get the lemma ids of the first page carrying the given coordinates.
#[verifier::loop_isolation(false)]
pub fn get_page_lemmas<'a>(stream: &'a BookLemmaStream, part_index: u32, page_id: u32) -> (r:
    Option<&'a Vec<u32>>)
    ensures
        (r is None <==> (forall|k: int| 0 <= k < stream.pages@.len() ==> !page_matches(
            #[trigger] stream.pages@[k],
            part_index,
            page_id,
        ))),
        (r matches Some(v) ==> exists|k: int| 0 <= k < stream.pages@.len() && page_matches(
            #[trigger] stream.pages@[k],
            part_index,
            page_id,
        ) && v@ == stream.pages@[k].lemma_ids@),
{
    let ghost pages = stream.pages@;
    let mut i: usize = 0;
    while i < stream.pages.len()
        invariant
            i <= pages.len(),
            forall|t: int| 0 <= t < i ==> !page_matches(#[trigger] pages[t], part_index, page_id),
        decreases pages.len() - i,
    {
        let page = &stream.pages[i];
        if page.part_index == part_index && page.page_id == page_id {
            return Some(&stream.pages[i].lemma_ids);
        }
        i = i + 1;
    }
    None
}

/// Number of distinct lemma ids in a stream: the count of positions
/// holding a value not seen earlier.
pub open spec fn count_distinct(s: Seq<u32>) -> int
    decreases s.len(),
{
    if s.len() == 0 {
        0
    } else {
        count_distinct(s.drop_last()) + if s.drop_last().contains(s.last()) {
            0int
        } else {
            1int
        }
    }
}

pub proof fn lemma_count_distinct_le(s: Seq<u32>)
    ensures
        0 <= count_distinct(s) <= s.len(),
    decreases s.len(),
{
    if s.len() > 0 {
        lemma_count_distinct_le(s.drop_last());
    }
}

/// Statistics of a book's lemma stream. The average page length is
/// per-mille: 10000 stands for 10 tokens per page.
#[derive(Debug)]
pub struct LemmaStats {
    pub total_tokens: usize,
    pub unique_lemmas: usize,
    pub page_count: usize,
    pub avg_tokens_per_page: u64,
    pub most_common_lemma: Option<(u32, usize)>,
}

/// Occurrences of a lemma in a stream.
#[verifier::loop_isolation(false)]
fn count_value(s: &Vec<u32>, x: u32) -> (r: usize)
    ensures
        r == crate::compare::count_occ(s@, x),
{
    let mut count: usize = 0;
    let mut i: usize = 0;
    while i < s.len()
        invariant
            i <= s@.len(),
            count == crate::compare::count_occ(s@.take(i as int), x),
            count <= i,
        decreases s@.len() - i,
    {
        proof {
            assert(s@.take(i + 1).drop_last() =~= s@.take(i as int));
            assert(s@.take(i + 1).last() == s@[i as int]);
            crate::compare::lemma_count_occ_le(s@.take(i as int), x);
        }
        if s[i] == x {
            count = count + 1;
        }
        i = i + 1;
    }
    proof {
        assert(s@.take(s@.len() as int) =~= s@);
    }
    count
}

/// Whether x occurs among the first n elements.
#[verifier::loop_isolation(false)]
fn prefix_contains(s: &Vec<u32>, n: usize, x: u32) -> (r: bool)
    requires
        n <= s@.len(),
    ensures
        r == s@.take(n as int).contains(x),
{
    let mut i: usize = 0;
    while i < n
        invariant
            i <= n,
            forall|t: int| 0 <= t < i ==> s@[t] != x,
        decreases n - i,
    {
        if s[i] == x {
            proof {
                assert(s@.take(n as int)[i as int] == x);
            }
            return true;
        }
        i = i + 1;
    }
    proof {
        if s@.take(n as int).contains(x) {
            let t = choose|t: int| 0 <= t < n && s@.take(n as int)[t] == x;
            assert(s@[t] == x);
        }
    }
    false
}

/// Calculate statistics for a lemma stream: token and page totals, the
/// number of distinct lemmas, the per-mille average page length, and a
/// most frequent lemma with its count (the first maximal one).
#[verifier::loop_isolation(false)]
pub fn calculate_lemma_stats(stream: &BookLemmaStream) -> (r: LemmaStats)
    ensures
        r.total_tokens == stream.total_tokens,
        r.page_count == stream.pages@.len(),
        r.unique_lemmas == count_distinct(stream.lemmas_spec()),
        r.avg_tokens_per_page == (if stream.pages@.len() == 0 {
            0int
        } else {
            stream.total_tokens * 1000 / stream.pages@.len() as int
        }) as u64,
        (r.most_common_lemma is None <==> stream.lemmas_spec().len() == 0),
        (r.most_common_lemma matches Some((l, c)) ==> stream.lemmas_spec().contains(l) && c
            == crate::compare::count_occ(stream.lemmas_spec(), l) && (forall|t: int| 0 <= t
            < stream.lemmas_spec().len() ==> crate::compare::count_occ(
            stream.lemmas_spec(),
            #[trigger] stream.lemmas_spec()[t],
        ) <= c)),
{
    let flat = stream.flat_lemmas();
    let ghost fv = flat@;

    let mut unique: usize = 0;
    let mut i: usize = 0;
    while i < flat.len()
        invariant
            i <= fv.len(),
            unique == count_distinct(fv.take(i as int)),
            unique <= i,
        decreases fv.len() - i,
    {
        proof {
            assert(fv.take(i + 1).drop_last() =~= fv.take(i as int));
            assert(fv.take(i + 1).last() == fv[i as int]);
            lemma_count_distinct_le(fv.take(i as int));
        }
        let seen = prefix_contains(&flat, i, flat[i]);
        if !seen {
            unique = unique + 1;
        }
        i = i + 1;
    }
    proof {
        assert(fv.take(fv.len() as int) =~= fv);
    }

    let mut most_common: Option<(u32, usize)> = None;
    let mut best_count: usize = 0;
    let mut k: usize = 0;
    while k < flat.len()
        invariant
            k <= fv.len(),
            (most_common is None <==> k == 0),
            k > 0 ==> fv.len() > 0,
            (most_common matches Some((l, c)) ==> fv.contains(l) && c
                == crate::compare::count_occ(fv, l) && c == best_count),
            forall|t: int| 0 <= t < k ==> crate::compare::count_occ(fv, #[trigger] fv[t])
                <= best_count,
        decreases fv.len() - k,
    {
        let c = count_value(&flat, flat[k]);
        if c > best_count || k == 0 {
            best_count = c;
            most_common = Some((flat[k], c));
            proof {
                assert(fv[k as int] == flat@[k as int]);
            }
        }
        k = k + 1;
    }
    proof {
        assert(fv.take(fv.len() as int) =~= fv);
    }

    let page_count = stream.pages.len();
    let avg_tokens_per_page: u64 = if page_count == 0 {
        0
    } else {
        #[verifier::truncate] (((stream.total_tokens as u128) * 1000 / (page_count as u128)) as u64)
    };

    LemmaStats {
        total_tokens: stream.total_tokens,
        unique_lemmas: unique,
        page_count,
        avg_tokens_per_page,
        most_common_lemma: most_common,
    }
}

} // verus!