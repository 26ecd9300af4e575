//! Data structures for the text reuse detection pipeline.
//!
//! Similarity ratios and weights are per-mille integers throughout:
//! a stored value of 1000 stands for the ratio 1.0, and an IDF weight
//! of 1500 stands for 1.5.

use vstd::prelude::*;

verus! {

/// Ratios are stored as per-mille integers: 1000 stands for 1.0.
pub const SIM_SCALE: u32 = 1000;

/// A single page's lemma sequence.
#[derive(Debug, Clone)]
pub struct PageLemmas {
    pub part_index: u32,
    pub page_id: u32,
    pub lemma_ids: Vec<u32>,
}

/// A single page's parallel token, lemma and root id sequences.
/// A root id of 0 means the token has no analyzed root.
#[derive(Debug, Clone)]
pub struct PageTokens {
    pub part_index: u32,
    pub page_id: u32,
    pub token_ids: Vec<u32>,
    pub lemma_ids: Vec<u32>,
    pub root_ids: Vec<u32>,
}

impl PageTokens {
    /// The three id sequences of a page run in parallel.
    pub open spec fn wf(self) -> bool {
        self.token_ids@.len() == self.lemma_ids@.len()
            && self.token_ids@.len() == self.root_ids@.len()
    }
}

/// The lemma ids of a page sequence, concatenated in page order.
pub open spec fn lemma_stream_of(pages: Seq<PageLemmas>) -> Seq<u32>
    decreases pages.len(),
{
    if pages.len() == 0 {
        Seq::empty()
    } else {
        lemma_stream_of(pages.drop_last()) + pages.last().lemma_ids@
    }
}

/// The token ids of a token-page sequence, concatenated in page order.
pub open spec fn token_stream_of(pages: Seq<PageTokens>) -> Seq<u32>
    decreases pages.len(),
{
    if pages.len() == 0 {
        Seq::empty()
    } else {
        token_stream_of(pages.drop_last()) + pages.last().token_ids@
    }
}

/// The lemma ids of a token-page sequence, concatenated in page order.
pub open spec fn lemma_stream_of_tokens(pages: Seq<PageTokens>) -> Seq<u32>
    decreases pages.len(),
{
    if pages.len() == 0 {
        Seq::empty()
    } else {
        lemma_stream_of_tokens(pages.drop_last()) + pages.last().lemma_ids@
    }
}

/// The root ids of a token-page sequence, concatenated in page order.
pub open spec fn root_stream_of(pages: Seq<PageTokens>) -> Seq<u32>
    decreases pages.len(),
{
    if pages.len() == 0 {
        Seq::empty()
    } else {
        root_stream_of(pages.drop_last()) + pages.last().root_ids@
    }
}

/// Complete lemma stream for a book.
#[derive(Debug, Clone)]
pub struct BookLemmaStream {
    pub book_id: u32,
    pub total_tokens: usize,
    pub pages: Vec<PageLemmas>,
}

impl BookLemmaStream {
    /// The flat lemma stream: the page sequences concatenated in order.
    pub open spec fn lemmas_spec(self) -> Seq<u32> {
        lemma_stream_of(self.pages@)
    }

    /// The recorded token total matches the flat stream's length.
    pub open spec fn wf(self) -> bool {
        self.total_tokens == self.lemmas_spec().len()
    }

    /// Get flat array of all lemma IDs in order.
    pub fn flat_lemmas(&self) -> (r: Vec<u32>)
        ensures
            r@ == self.lemmas_spec(),
    {
        let mut r: Vec<u32> = Vec::new();
        let mut i: usize = 0;
        while i < self.pages.len()
            invariant
                i <= self.pages@.len(),
                r@ == lemma_stream_of(self.pages@.take(i as int)),
            decreases self.pages@.len() - i,
        {
            r.extend_from_slice(self.pages[i].lemma_ids.as_slice());
            proof {
                assert(self.pages@.take(i + 1).drop_last() =~= self.pages@.take(i as int));
                assert(self.pages@.take(i + 1).last() == self.pages@[i as int]);
            }
            i = i + 1;
        }
        proof {
            assert(self.pages@.take(self.pages@.len() as int) =~= self.pages@);
        }
        r
    }

    /// Get the number of pages.
    pub fn page_count(&self) -> (r: usize)
        ensures
            r == self.pages@.len(),
    {
        self.pages.len()
    }
}

/// Complete token stream for a book, with token, lemma and root ids.
#[derive(Debug, Clone)]
pub struct BookTokenStream {
    pub book_id: u32,
    pub total_tokens: usize,
    pub pages: Vec<PageTokens>,
}

impl BookTokenStream {
    pub open spec fn tokens_spec(self) -> Seq<u32> {
        token_stream_of(self.pages@)
    }

    pub open spec fn lemmas_spec(self) -> Seq<u32> {
        lemma_stream_of_tokens(self.pages@)
    }

    pub open spec fn roots_spec(self) -> Seq<u32> {
        root_stream_of(self.pages@)
    }

    /// Every page's id sequences run in parallel, and the recorded total
    /// matches the flat stream's length.
    pub open spec fn wf(self) -> bool {
        (forall|i: int| 0 <= i < self.pages@.len() ==> (#[trigger] self.pages@[i]).wf())
            && self.total_tokens == self.lemmas_spec().len()
    }

    /// Get flat array of all token IDs in order.
    pub fn flat_token_ids(&self) -> (r: Vec<u32>)
        ensures
            r@ == self.tokens_spec(),
    {
        let mut r: Vec<u32> = Vec::new();
        let mut i: usize = 0;
        while i < self.pages.len()
            invariant
                i <= self.pages@.len(),
                r@ == token_stream_of(self.pages@.take(i as int)),
            decreases self.pages@.len() - i,
        {
            r.extend_from_slice(self.pages[i].token_ids.as_slice());
            proof {
                assert(self.pages@.take(i + 1).drop_last() =~= self.pages@.take(i as int));
                assert(self.pages@.take(i + 1).last() == self.pages@[i as int]);
            }
            i = i + 1;
        }
        proof {
            assert(self.pages@.take(self.pages@.len() as int) =~= self.pages@);
        }
        r
    }

    /// Get flat array of all lemma IDs in order.
    pub fn flat_lemma_ids(&self) -> (r: Vec<u32>)
        ensures
            r@ == self.lemmas_spec(),
    {
        let mut r: Vec<u32> = Vec::new();
        let mut i: usize = 0;
        while i < self.pages.len()
            invariant
                i <= self.pages@.len(),
                r@ == lemma_stream_of_tokens(self.pages@.take(i as int)),
            decreases self.pages@.len() - i,
        {
            r.extend_from_slice(self.pages[i].lemma_ids.as_slice());
            proof {
                assert(self.pages@.take(i + 1).drop_last() =~= self.pages@.take(i as int));
                assert(self.pages@.take(i + 1).last() == self.pages@[i as int]);
            }
            i = i + 1;
        }
        proof {
            assert(self.pages@.take(self.pages@.len() as int) =~= self.pages@);
        }
        r
    }

    /// Get flat array of all root IDs in order.
    pub fn flat_root_ids(&self) -> (r: Vec<u32>)
        ensures
            r@ == self.roots_spec(),
    {
        let mut r: Vec<u32> = Vec::new();
        let mut i: usize = 0;
        while i < self.pages.len()
            invariant
                i <= self.pages@.len(),
                r@ == root_stream_of(self.pages@.take(i as int)),
            decreases self.pages@.len() - i,
        {
            r.extend_from_slice(self.pages[i].root_ids.as_slice());
            proof {
                assert(self.pages@.take(i + 1).drop_last() =~= self.pages@.take(i as int));
                assert(self.pages@.take(i + 1).last() == self.pages@[i as int]);
            }
            i = i + 1;
        }
        proof {
            assert(self.pages@.take(self.pages@.len() as int) =~= self.pages@);
        }
        r
    }

    /// Get the number of pages.
    pub fn page_count(&self) -> (r: usize)
        ensures
            r == self.pages@.len(),
    {
        self.pages.len()
    }
}

impl BookTokenStream {
    /// Get surface text with context before and after a passage:
    /// the matched token range and up to context_tokens known surface
    /// forms on each side, space-joined.
    pub fn get_surface_text_with_context(
        &self,
        global_start: usize,
        global_end: usize,
        context_tokens: usize,
        token_to_surface: &[String],
    ) -> (r: PassageText)
        requires
            global_start <= global_end,
            global_end as int + context_tokens as int <= usize::MAX as int,
        ensures
            r.before@ == crate::output::spec_range_text(
                self.tokens_spec(),
                token_to_surface@,
                if global_start >= context_tokens {
                    global_start - context_tokens
                } else {
                    0int
                },
                global_start as int,
            ),
            r.matched@ == crate::output::spec_range_text(
                self.tokens_spec(),
                token_to_surface@,
                global_start as int,
                global_end as int,
            ),
            r.after@ == crate::output::spec_range_text(
                self.tokens_spec(),
                token_to_surface@,
                global_end as int,
                global_end + context_tokens,
            ),
    {
        let token_ids = self.flat_token_ids();
        let context_start = if global_start >= context_tokens {
            global_start - context_tokens
        } else {
            0
        };
        let before = crate::output::range_text(
            &token_ids,
            token_to_surface,
            context_start,
            global_start,
        );
        let matched = crate::output::range_text(
            &token_ids,
            token_to_surface,
            global_start,
            global_end,
        );
        let after = crate::output::range_text(
            &token_ids,
            token_to_surface,
            global_end,
            global_end + context_tokens,
        );
        PassageText { before, matched, after }
    }
}

/// The passage location string of a start and end page coordinate.
pub open spec fn passage_loc_str(
    start_page: (u32, u32),
    start_offset: u32,
    end_page: (u32, u32),
    end_offset: u32,
) -> Seq<char> {
    crate::output::page_loc_str(
        start_page.0 as int,
        start_page.1 as int,
        start_offset as int,
    ) + " \u{2192} "@ + crate::output::page_loc_str(
        end_page.0 as int,
        end_page.1 as int,
        end_offset as int,
    )
}

/// The relation between an edge and its with-text form: id, book ids,
/// global ranges and location strings carry over, the three text parts
/// of each side are the reconstructed surface text of the edge's range
/// with up to context_tokens of context, and every count and metric is
/// copied unchanged.
pub open spec fn edge_with_text_matches(
    r: ReuseEdgeWithText,
    edge: ReuseEdge,
    source_stream: BookTokenStream,
    target_stream: BookTokenStream,
    surfaces: Seq<String>,
    context_tokens: int,
) -> bool {
    &&& r.id == edge.id
    &&& r.source.book_id == edge.source_book_id
    &&& r.source.global_range == (edge.source_global_start, edge.source_global_end)
    &&& r.source.location@ == passage_loc_str(
        edge.source_start_page,
        edge.source_start_offset,
        edge.source_end_page,
        edge.source_end_offset,
    )
    &&& r.source.text.before@ == crate::output::spec_range_text(
        source_stream.tokens_spec(),
        surfaces,
        if edge.source_global_start >= context_tokens {
            edge.source_global_start - context_tokens
        } else {
            0int
        },
        edge.source_global_start as int,
    )
    &&& r.source.text.matched@ == crate::output::spec_range_text(
        source_stream.tokens_spec(),
        surfaces,
        edge.source_global_start as int,
        edge.source_global_end as int,
    )
    &&& r.source.text.after@ == crate::output::spec_range_text(
        source_stream.tokens_spec(),
        surfaces,
        edge.source_global_end as int,
        edge.source_global_end + context_tokens,
    )
    &&& r.target.book_id == edge.target_book_id
    &&& r.target.global_range == (edge.target_global_start, edge.target_global_end)
    &&& r.target.location@ == passage_loc_str(
        edge.target_start_page,
        edge.target_start_offset,
        edge.target_end_page,
        edge.target_end_offset,
    )
    &&& r.target.text.before@ == crate::output::spec_range_text(
        target_stream.tokens_spec(),
        surfaces,
        if edge.target_global_start >= context_tokens {
            edge.target_global_start - context_tokens
        } else {
            0int
        },
        edge.target_global_start as int,
    )
    &&& r.target.text.matched@ == crate::output::spec_range_text(
        target_stream.tokens_spec(),
        surfaces,
        edge.target_global_start as int,
        edge.target_global_end as int,
    )
    &&& r.target.text.after@ == crate::output::spec_range_text(
        target_stream.tokens_spec(),
        surfaces,
        edge.target_global_end as int,
        edge.target_global_end + context_tokens,
    )
    &&& r.alignment.length == edge.aligned_length
    &&& r.alignment.lemma_matches == edge.lemma_matches
    &&& r.alignment.substitutions == edge.substitutions
    &&& r.alignment.root_only_matches == edge.root_only_matches
    &&& r.alignment.gaps == edge.gaps
    &&& r.alignment.core_similarity == edge.core_similarity
    &&& r.alignment.span_coverage == edge.span_coverage
    &&& r.alignment.content_weight == edge.content_weight
    &&& r.alignment.similarity == edge.lemma_similarity
    &&& r.alignment.combined_similarity == edge.combined_similarity
    &&& r.alignment.weighted_similarity == edge.weighted_similarity
    &&& r.alignment.avg_match_weight == edge.avg_match_weight
}

impl ReuseEdgeWithText {
    /// Create from an edge by reconstructing both passages' text and
    /// formatting their locations; every count and metric carries over.
    pub fn from_edge(
        edge: &ReuseEdge,
        source_stream: &BookTokenStream,
        target_stream: &BookTokenStream,
        token_to_surface: &[String],
        context_tokens: usize,
    ) -> (r: Self)
        requires
            edge.source_global_start <= edge.source_global_end,
            edge.target_global_start <= edge.target_global_end,
            edge.source_global_end as int + context_tokens as int <= usize::MAX as int,
            edge.target_global_end as int + context_tokens as int <= usize::MAX as int,
        ensures
            edge_with_text_matches(
                r,
                *edge,
                *source_stream,
                *target_stream,
                token_to_surface@,
                context_tokens as int,
            ),
    {
        let source_text = source_stream.get_surface_text_with_context(
            edge.source_global_start,
            edge.source_global_end,
            context_tokens,
            token_to_surface,
        );
        let target_text = target_stream.get_surface_text_with_context(
            edge.target_global_start,
            edge.target_global_end,
            context_tokens,
            token_to_surface,
        );
        let mut source_location = crate::output::format_page_location(
            edge.source_start_page.0,
            edge.source_start_page.1,
            edge.source_start_offset,
        );
        source_location.append(" \u{2192} ");
        let source_end_loc = crate::output::format_page_location(
            edge.source_end_page.0,
            edge.source_end_page.1,
            edge.source_end_offset,
        );
        source_location.append(source_end_loc.as_str());
        let mut target_location = crate::output::format_page_location(
            edge.target_start_page.0,
            edge.target_start_page.1,
            edge.target_start_offset,
        );
        target_location.append(" \u{2192} ");
        let target_end_loc = crate::output::format_page_location(
            edge.target_end_page.0,
            edge.target_end_page.1,
            edge.target_end_offset,
        );
        target_location.append(target_end_loc.as_str());
        proof {
            assert(source_location@ =~= passage_loc_str(
                edge.source_start_page,
                edge.source_start_offset,
                edge.source_end_page,
                edge.source_end_offset,
            ));
            assert(target_location@ =~= passage_loc_str(
                edge.target_start_page,
                edge.target_start_offset,
                edge.target_end_page,
                edge.target_end_offset,
            ));
        }
        ReuseEdgeWithText {
            id: edge.id,
            source: PassageRef {
                book_id: edge.source_book_id,
                location: source_location,
                global_range: (edge.source_global_start, edge.source_global_end),
                text: source_text,
            },
            target: PassageRef {
                book_id: edge.target_book_id,
                location: target_location,
                global_range: (edge.target_global_start, edge.target_global_end),
                text: target_text,
            },
            alignment: AlignmentInfo {
                length: edge.aligned_length,
                lemma_matches: edge.lemma_matches,
                substitutions: edge.substitutions,
                root_only_matches: edge.root_only_matches,
                gaps: edge.gaps,
                core_similarity: edge.core_similarity,
                span_coverage: edge.span_coverage,
                content_weight: edge.content_weight,
                similarity: edge.lemma_similarity,
                combined_similarity: edge.combined_similarity,
                weighted_similarity: edge.weighted_similarity,
                avg_match_weight: edge.avg_match_weight,
            },
        }
    }
}

/// In a well-formed token stream the three flat streams run in parallel.
pub proof fn lemma_parallel_stream_lens(pages: Seq<PageTokens>)
    requires
        forall|i: int| 0 <= i < pages.len() ==> (#[trigger] pages[i]).wf(),
    ensures
        token_stream_of(pages).len() == lemma_stream_of_tokens(pages).len(),
        token_stream_of(pages).len() == root_stream_of(pages).len(),
    decreases pages.len(),
{
    if pages.len() > 0 {
        assert(pages.last().wf());
        lemma_parallel_stream_lens(pages.drop_last());
    }
}

/// A window into a book's lemma/root stream.
#[derive(Debug)]
pub struct Window {
    pub book_id: u32,
    pub window_idx: u32,
    pub global_start: usize,
    pub global_end: usize,
    /// (part_index, page_id) of the page holding `global_start`.
    pub start_page: (u32, u32),
    /// Offset of `global_start` within its page.
    pub start_offset: u32,
    /// (part_index, page_id) of the page holding `global_end - 1`.
    pub end_page: (u32, u32),
    /// Offset of `global_end - 1` within its page.
    pub end_offset: u32,
    pub lemma_ids: Vec<u32>,
    /// Root ids in parallel with `lemma_ids`; 0 means no root.
    pub root_ids: Vec<u32>,
}

impl Clone for Window {
    fn clone(&self) -> (r: Self)
        ensures
            r.book_id == self.book_id,
            r.window_idx == self.window_idx,
            r.global_start == self.global_start,
            r.global_end == self.global_end,
            r.start_page == self.start_page,
            r.start_offset == self.start_offset,
            r.end_page == self.end_page,
            r.end_offset == self.end_offset,
            r.lemma_ids@ == self.lemma_ids@,
            r.root_ids@ == self.root_ids@,
    {
        let lemma_ids = self.lemma_ids.clone();
        let root_ids = self.root_ids.clone();
        proof {
            assert(lemma_ids@ =~= self.lemma_ids@);
            assert(root_ids@ =~= self.root_ids@);
        }
        Window {
            book_id: self.book_id,
            window_idx: self.window_idx,
            global_start: self.global_start,
            global_end: self.global_end,
            start_page: self.start_page,
            start_offset: self.start_offset,
            end_page: self.end_page,
            end_offset: self.end_offset,
            lemma_ids,
            root_ids,
        }
    }
}

impl Window {
    /// The owned id slices span exactly `[global_start, global_end)`.
    pub open spec fn wf(self) -> bool {
        self.global_start <= self.global_end
            && self.lemma_ids@.len() == self.global_end - self.global_start
            && self.root_ids@.len() == self.global_end - self.global_start
    }
}

/// Result of Smith-Waterman local alignment.
#[derive(Debug, Clone)]
pub struct Alignment {
    pub start_a: usize,
    pub end_a: usize,
    pub start_b: usize,
    pub end_b: usize,
    /// Matched position pairs (diagonal moves), in ascending order.
    pub aligned_pairs: Vec<(usize, usize)>,
    pub lemma_matches: u32,
    /// Diagonal moves where neither lemma nor root matched.
    pub substitutions: u32,
    /// Diagonal moves where the roots matched but the lemmas did not.
    pub root_only_matches: u32,
    /// Non-diagonal moves.
    pub gaps: u32,
    /// Raw DP score of the argmax cell.
    pub score: i64,
    /// Sum over lemma-equal pairs of min(weight_a, weight_b), per-mille.
    pub match_weight_sum: u64,
}

impl Alignment {
    /// Every aligned pair is classified exactly once.
    pub open spec fn counts_wf(self) -> bool {
        self.aligned_pairs@.len() == self.lemma_matches + self.substitutions
            + self.root_only_matches
    }
}

/// Matching mode for alignment scoring.
#[derive(Debug, Clone, Copy, PartialEq, Eq, Structural, Default)]
pub enum MatchMode {
    /// Only lemma equality counts as a match.
    #[default]
    Lemma,
    /// Only root equality counts as a match (0 never matches).
    Root,
    /// Lemma match scores fully, root-only match scores partially.
    Combined,
}

/// Comparison parameters. Ratio-valued options are per-mille.
#[derive(Debug, Clone, Copy)]
pub struct ComparisonParams {
    pub window_size: usize,
    pub stride: usize,
    pub ngram_size: usize,
    pub min_shared_shingles: usize,
    pub min_length: usize,
    /// In-aligner similarity gate, per-mille.
    pub min_similarity: u32,
    pub match_score: i32,
    pub mismatch_penalty: i32,
    pub gap_penalty: i32,
    pub brute_force: bool,
    pub mode: MatchMode,
    /// Reward for a lemma match.
    pub lemma_score: i32,
    /// Reward for a root-only match in combined mode.
    pub root_score: i32,
    /// Apply per-book IDF weights to lemma match scores.
    pub use_weights: bool,
    /// Post-merge gate on weighted similarity, per-mille.
    pub min_weighted_similarity: Option<u32>,
    /// Post-merge gate on core similarity, per-mille.
    pub min_core_similarity: Option<u32>,
    /// Post-merge gate on span coverage, per-mille.
    pub min_span_coverage: Option<u32>,
    /// Post-merge gate on content weight, per-mille.
    pub min_content_weight: Option<u32>,
}

impl ComparisonParams {
    /// The bounds the aligner may assume of its configuration: rewards are
    /// non-negative, penalties non-positive, and the windowing sizes positive.
    pub open spec fn wf(self) -> bool {
        &&& self.window_size >= self.ngram_size >= 1
        &&& self.stride >= 1
        &&& self.min_length >= 1
        &&& self.lemma_score >= 0
        &&& self.root_score >= 0
        &&& self.mismatch_penalty <= 0
        &&& self.gap_penalty <= 0
    }
}

impl Default for ComparisonParams {
    /// The default scholar-grade configuration.
    fn default() -> (r: Self)
        ensures
            r.window_size == 275,
            r.stride == 60,
            r.ngram_size == 5,
            r.min_shared_shingles == 3,
            r.min_length == 10,
            r.min_similarity == 400,
            r.match_score == 2,
            r.mismatch_penalty == -1,
            r.gap_penalty == -1,
            r.brute_force == false,
            r.mode == MatchMode::Lemma,
            r.lemma_score == 2,
            r.root_score == 1,
            r.use_weights == true,
            r.min_weighted_similarity.is_none(),
            r.min_core_similarity.is_none(),
            r.min_span_coverage.is_none(),
            r.min_content_weight.is_none(),
            r.wf(),
    {
        ComparisonParams {
            window_size: 275,
            stride: 60,
            ngram_size: 5,
            min_shared_shingles: 3,
            min_length: 10,
            min_similarity: 400,
            match_score: 2,
            mismatch_penalty: -1,
            gap_penalty: -1,
            brute_force: false,
            mode: MatchMode::Lemma,
            lemma_score: 2,
            root_score: 1,
            use_weights: true,
            min_weighted_similarity: None,
            min_core_similarity: None,
            min_span_coverage: None,
            min_content_weight: None,
        }
    }
}

/// A detected reuse instance between two books.
/// All similarity metrics are per-mille integers.
#[derive(Debug)]
pub struct ReuseEdge {
    pub id: u64,

    pub source_book_id: u32,
    pub source_start_page: (u32, u32),
    pub source_start_offset: u32,
    pub source_end_page: (u32, u32),
    pub source_end_offset: u32,
    pub source_global_start: usize,
    pub source_global_end: usize,

    pub target_book_id: u32,
    pub target_start_page: (u32, u32),
    pub target_start_offset: u32,
    pub target_end_page: (u32, u32),
    pub target_end_offset: u32,
    pub target_global_start: usize,
    pub target_global_end: usize,

    /// Total alignment operations: diagonal moves plus gaps.
    pub aligned_length: u32,
    pub lemma_matches: u32,
    pub substitutions: u32,
    pub root_only_matches: u32,
    pub gaps: u32,

    /// matches / (matches + substitutions): quotation exactness.
    pub core_similarity: u32,
    /// (matches + substitutions) / aligned_length: content vs padding.
    pub span_coverage: u32,
    /// match_weight_sum / matches: average IDF of matched lemmas.
    pub content_weight: u32,

    /// lemma_matches / aligned_length.
    pub lemma_similarity: u32,
    /// (lemma_matches + root_only_matches / 2) / aligned_length.
    pub combined_similarity: u32,
    /// match_weight_sum / aligned_length.
    pub weighted_similarity: u32,
    /// Same value as `content_weight`.
    pub avg_match_weight: u32,
}

impl Clone for ReuseEdge {
    fn clone(&self) -> (r: Self)
        ensures
            r == *self,
    {
        ReuseEdge {
            id: self.id,
            source_book_id: self.source_book_id,
            source_start_page: self.source_start_page,
            source_start_offset: self.source_start_offset,
            source_end_page: self.source_end_page,
            source_end_offset: self.source_end_offset,
            source_global_start: self.source_global_start,
            source_global_end: self.source_global_end,
            target_book_id: self.target_book_id,
            target_start_page: self.target_start_page,
            target_start_offset: self.target_start_offset,
            target_end_page: self.target_end_page,
            target_end_offset: self.target_end_offset,
            target_global_start: self.target_global_start,
            target_global_end: self.target_global_end,
            aligned_length: self.aligned_length,
            lemma_matches: self.lemma_matches,
            substitutions: self.substitutions,
            root_only_matches: self.root_only_matches,
            gaps: self.gaps,
            core_similarity: self.core_similarity,
            span_coverage: self.span_coverage,
            content_weight: self.content_weight,
            lemma_similarity: self.lemma_similarity,
            combined_similarity: self.combined_similarity,
            weighted_similarity: self.weighted_similarity,
            avg_match_weight: self.avg_match_weight,
        }
    }
}

/// num / den as a per-mille ratio, truncated; 0 when the denominator is 0.
pub open spec fn ratio_permille(num: int, den: int) -> int {
    if den > 0 {
        num * 1000 / den
    } else {
        0
    }
}

/// num / den truncated, 0 when the denominator is 0. For values whose
/// numerator is already per-mille scaled.
pub open spec fn scaled_ratio(num: int, den: int) -> int {
    if den > 0 {
        num / den
    } else {
        0
    }
}

/// Book metadata from the tabular sidecar.
#[derive(Debug, Clone, Default)]
pub struct BookMetadata {
    pub id: u32,
    pub corpus: String,
    pub title: String,
    pub author_id: Option<u32>,
    pub death_ah: Option<u32>,
    pub century_ah: Option<u8>,
    pub genre_id: Option<u32>,
    pub page_count: u32,
    pub token_count: u64,
}

/// Aggregate statistics of one comparison run.
/// Coverage and similarity values are per-mille.
#[derive(Debug, Clone)]
pub struct ComparisonSummary {
    pub edge_count: usize,
    pub total_aligned_tokens: usize,
    pub book_a_coverage: u32,
    pub book_b_coverage: u32,
    pub avg_similarity: u32,
    pub avg_weighted_similarity: u32,
}

/// Full comparison result.
#[derive(Debug)]
pub struct ComparisonResult {
    pub version: String,
    pub parameters: ComparisonParams,
    pub book_a: BookMetadata,
    pub book_b: BookMetadata,
    pub summary: ComparisonSummary,
    pub edges: Vec<ReuseEdge>,
}

/// Page metadata from the pages table.
#[derive(Debug, Clone)]
pub struct PageInfo {
    pub book_id: u32,
    pub part_index: u32,
    pub page_id: u32,
    pub part_label: Option<String>,
    pub page_number: Option<String>,
    pub token_count: u32,
}

/// Corpus statistics.
#[derive(Debug)]
pub struct CorpusStats {
    pub total_books: u64,
    pub total_pages: u64,
    pub total_tokens: u64,
    pub unique_lemmas: u64,
    pub unique_roots: u64,
    pub token_definitions: u64,
}

/// Book information including token counts.
#[derive(Debug)]
pub struct BookInfo {
    pub book_id: u32,
    pub page_count: u64,
    pub total_tokens: u64,
    pub unique_lemmas: u64,
    pub pages: Vec<PageInfo>,
}

/// Reconstructed text for a passage with context.
#[derive(Debug, Clone)]
pub struct PassageText {
    pub before: String,
    pub matched: String,
    pub after: String,
}

/// Reference to a passage location with text.
#[derive(Debug)]
pub struct PassageRef {
    pub book_id: u32,
    /// "part:start_page.offset → part:end_page.offset"
    pub location: String,
    /// (start, end) in the flat token array.
    pub global_range: (usize, usize),
    pub text: PassageText,
}

impl Clone for PassageRef {
    fn clone(&self) -> (r: Self)
        ensures
            r.book_id == self.book_id,
            r.location@ == self.location@,
            r.global_range == self.global_range,
            r.text.before@ == self.text.before@,
            r.text.matched@ == self.text.matched@,
            r.text.after@ == self.text.after@,
    {
        PassageRef {
            book_id: self.book_id,
            location: self.location.clone(),
            global_range: self.global_range,
            text: PassageText {
                before: self.text.before.clone(),
                matched: self.text.matched.clone(),
                after: self.text.after.clone(),
            },
        }
    }
}

/// Alignment information carried on an edge with text.
/// All similarity metrics are per-mille integers.
#[derive(Debug, Clone)]
pub struct AlignmentInfo {
    pub length: u32,
    pub lemma_matches: u32,
    pub substitutions: u32,
    pub root_only_matches: u32,
    pub gaps: u32,

    pub core_similarity: u32,
    pub span_coverage: u32,
    pub content_weight: u32,

    pub similarity: u32,
    pub combined_similarity: u32,
    pub weighted_similarity: u32,
    pub avg_match_weight: u32,
}

/// A reuse edge with reconstructed text.
#[derive(Debug, Clone)]
pub struct ReuseEdgeWithText {
    pub id: u64,
    pub source: PassageRef,
    pub target: PassageRef,
    pub alignment: AlignmentInfo,
}

/// Simplified book info for viewer output.
#[derive(Debug, Clone)]
pub struct ViewerBookInfo {
    pub id: u32,
    pub title: String,
    pub author: String,
    pub death_ah: Option<u32>,
    pub token_count: u64,
    pub page_count: u32,
}

impl ViewerBookInfo {
    /// Build the viewer book descriptor from full metadata; the author
    /// field starts empty and is filled from elsewhere when available.
    pub fn from_metadata(meta: &BookMetadata) -> (r: Self)
        ensures
            r.id == meta.id,
            r.title == meta.title,
            r.author@ == Seq::<char>::empty(),
            r.death_ah == meta.death_ah,
            r.token_count == meta.token_count,
            r.page_count == meta.page_count,
    {
        ViewerBookInfo {
            id: meta.id,
            title: meta.title.clone(),
            author: String::new(),
            death_ah: meta.death_ah,
            token_count: meta.token_count,
            page_count: meta.page_count,
        }
    }
}

/// Full comparison result with reconstructed text.
#[derive(Debug)]
pub struct ComparisonResultWithText {
    pub version: String,
    pub generated_at: String,
    pub parameters: ComparisonParams,
    pub book_a: ViewerBookInfo,
    pub book_b: ViewerBookInfo,
    pub summary: ComparisonSummary,
    pub edges: Vec<ReuseEdgeWithText>,
}

} // verus!
