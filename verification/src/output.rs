//! Textual output: page locations, human-readable edge summaries, CSV
//! rows, and the timestamp. All strings are built character-exactly
//! against specification functions over character sequences; per-mille
//! metrics print as percentages with one decimal, and weights with two.

use vstd::prelude::*;

use vstd::string::StrSliceExecFns;
use vstd::string::StringExecFns;

use crate::models::{ReuseEdge, ReuseEdgeWithText};

verus! {

/// The character of a single decimal digit.
pub open spec fn digit_char(d: int) -> char {
    if d == 0 {
        '0'
    } else if d == 1 {
        '1'
    } else if d == 2 {
        '2'
    } else if d == 3 {
        '3'
    } else if d == 4 {
        '4'
    } else if d == 5 {
        '5'
    } else if d == 6 {
        '6'
    } else if d == 7 {
        '7'
    } else if d == 8 {
        '8'
    } else {
        '9'
    }
}

/// The decimal digits of a non-negative number, most significant first.
pub open spec fn dec_str(n: int) -> Seq<char>
    decreases n,
{
    if n < 10 {
        seq![digit_char(n)]
    } else {
        dec_str(n / 10).push(digit_char(n % 10))
    }
}

/// Append one decimal digit.
fn push_digit(s: &mut String, d: u8)
    requires
        d < 10,
    ensures
        final(s)@ == old(s)@ + seq![digit_char(d as int)],
{
    let ghost prev = s@;
    match d {
        0 => s.append("0"),
        1 => s.append("1"),
        2 => s.append("2"),
        3 => s.append("3"),
        4 => s.append("4"),
        5 => s.append("5"),
        6 => s.append("6"),
        7 => s.append("7"),
        8 => s.append("8"),
        _ => s.append("9"),
    }
    proof {
        reveal_strlit("0");
        reveal_strlit("1");
        reveal_strlit("2");
        reveal_strlit("3");
        reveal_strlit("4");
        reveal_strlit("5");
        reveal_strlit("6");
        reveal_strlit("7");
        reveal_strlit("8");
        reveal_strlit("9");
        assert(s@ =~= prev + seq![digit_char(d as int)]);
    }
}

/// Append the decimal form of a number.
pub fn push_u64(s: &mut String, v: u64)
    ensures
        final(s)@ == old(s)@ + dec_str(v as int),
    decreases v,
{
    if v >= 10 {
        push_u64(s, v / 10);
    }
    push_digit(s, (v % 10) as u8);
    proof {
        if v >= 10 {
            assert(s@ =~= old(s)@ + dec_str(v as int));
        }
    }
}

/// The decimal form of a number as a string.
pub fn u64_to_string(v: u64) -> (r: String)
    ensures
        r@ == dec_str(v as int),
{
    let mut s = String::new();
    push_u64(&mut s, v);
    proof {
        assert(s@ =~= dec_str(v as int));
    }
    s
}

/// The location string "part:page.offset".
pub open spec fn page_loc_str(part: int, page: int, off: int) -> Seq<char> {
    dec_str(part) + seq![':'] + dec_str(page) + seq!['.'] + dec_str(off)
}

/// Format a page location as "part:page.offset".
pub fn format_page_location(part_index: u32, page_id: u32, offset: u32) -> (r: String)
    ensures
        r@ == page_loc_str(part_index as int, page_id as int, offset as int),
{
    let mut s = String::new();
    push_u64(&mut s, part_index as u64);
    s.append(":");
    push_u64(&mut s, page_id as u64);
    s.append(".");
    push_u64(&mut s, offset as u64);
    proof {
        reveal_strlit(":");
        reveal_strlit(".");
        assert(":"@ =~= seq![':']);
        assert("."@ =~= seq!['.']);
        assert(s@ =~= page_loc_str(part_index as int, page_id as int, offset as int));
    }
    s
}

/// A per-mille value as a percentage with one decimal: "94.4" for 944.
pub open spec fn percent1_str(p: int) -> Seq<char> {
    dec_str(p / 10) + seq!['.'] + seq![digit_char(p % 10)]
}

/// Format a per-mille value as a percentage with one decimal place.
pub fn format_percent1(p: u32) -> (r: String)
    ensures
        r@ == percent1_str(p as int),
{
    let mut s = String::new();
    push_u64(&mut s, (p / 10) as u64);
    s.append(".");
    push_digit(&mut s, (p % 10) as u8);
    proof {
        reveal_strlit(".");
        assert("."@ =~= seq!['.']);
        assert(s@ =~= percent1_str(p as int));
    }
    s
}

/// A per-mille value with two decimals: "1.50" for 1500.
pub open spec fn two_dec_str(p: int) -> Seq<char> {
    dec_str(p / 1000) + seq!['.'] + seq![digit_char(p % 1000 / 100)] + seq![
        digit_char(p % 100 / 10),
    ]
}

/// Format a per-mille value with two decimal places.
pub fn format_two_dec(p: u32) -> (r: String)
    ensures
        r@ == two_dec_str(p as int),
{
    let mut s = String::new();
    push_u64(&mut s, (p / 1000) as u64);
    s.append(".");
    push_digit(&mut s, (p % 1000 / 100) as u8);
    push_digit(&mut s, (p % 100 / 10) as u8);
    proof {
        reveal_strlit(".");
        assert("."@ =~= seq!['.']);
        assert(s@ =~= two_dec_str(p as int));
    }
    s
}

/// The crate's version tag for serialized results.
pub fn version_string() -> (r: String)
    ensures
        r@ == "0.1.0"@,
{
    "0.1.0".to_owned()
}


/// Number of tokens in a range whose surface is known.
pub open spec fn kept_count(tokens: Seq<u32>, surf: Seq<String>) -> int
    decreases tokens.len(),
{
    if tokens.len() == 0 {
        0
    } else {
        kept_count(tokens.drop_last(), surf) + if tokens.last() < surf.len() {
            1int
        } else {
            0int
        }
    }
}

/// The known surface forms of a token range, joined by single spaces;
/// tokens without a surface entry are skipped.
pub open spec fn joined_str(tokens: Seq<u32>, surf: Seq<String>) -> Seq<char>
    decreases tokens.len(),
{
    if tokens.len() == 0 {
        Seq::empty()
    } else {
        let p = joined_str(tokens.drop_last(), surf);
        let t = tokens.last();
        if t < surf.len() {
            if kept_count(tokens.drop_last(), surf) == 0 {
                surf[t as int]@
            } else {
                p + seq![' '] + surf[t as int]@
            }
        } else {
            p
        }
    }
}

/// Join the surface forms of the tokens in positions [start, end).
#[verifier::loop_isolation(false)]
pub fn join_surfaces(token_ids: &Vec<u32>, surfaces: &[String], start: usize, end: usize) -> (r:
    String)
    requires
        start <= end <= token_ids@.len(),
    ensures
        r@ == joined_str(token_ids@.subrange(start as int, end as int), surfaces@),
{
    let ghost range = token_ids@.subrange(start as int, end as int);
    let mut acc = String::new();
    let mut any = false;
    let mut i = start;
    while i < end
        invariant
            start <= i <= end,
            acc@ == joined_str(token_ids@.subrange(start as int, i as int), surfaces@),
            any == (kept_count(token_ids@.subrange(start as int, i as int), surfaces@) > 0),
        decreases end - i,
    {
        proof {
            assert(token_ids@.subrange(start as int, i + 1).drop_last() =~= token_ids@.subrange(
                start as int,
                i as int,
            ));
            assert(token_ids@.subrange(start as int, i + 1).last() == token_ids@[i as int]);
            lemma_kept_count_nonneg(token_ids@.subrange(start as int, i as int), surfaces@);
            if kept_count(token_ids@.subrange(start as int, i as int), surfaces@) == 0 {
                lemma_joined_empty(token_ids@.subrange(start as int, i as int), surfaces@);
            }
        }
        let tid = token_ids[i] as usize;
        if tid < surfaces.len() {
            if any {
                acc.append(" ");
                proof {
                    reveal_strlit(" ");
                    assert(" "@ =~= seq![' ']);
                }
            }
            acc.append(surfaces[tid].as_str());
            any = true;
            proof {
                assert(acc@ =~= joined_str(
                    token_ids@.subrange(start as int, i + 1),
                    surfaces@,
                ));
            }
        }
        i = i + 1;
    }
    acc
}

/// With no surfaced token, the join is empty.
pub proof fn lemma_joined_empty(tokens: Seq<u32>, surf: Seq<String>)
    requires
        kept_count(tokens, surf) == 0,
    ensures
        joined_str(tokens, surf) == Seq::<char>::empty(),
    decreases tokens.len(),
{
    if tokens.len() > 0 {
        lemma_kept_count_nonneg(tokens.drop_last(), surf);
        lemma_joined_empty(tokens.drop_last(), surf);
    }
}

pub proof fn lemma_kept_count_nonneg(tokens: Seq<u32>, surf: Seq<String>)
    ensures
        kept_count(tokens, surf) >= 0,
    decreases tokens.len(),
{
    if tokens.len() > 0 {
        lemma_kept_count_nonneg(tokens.drop_last(), surf);
    }
}

/// The text of a clamped token range: empty when the range is empty or
/// starts past the stream, else the joined surfaces up to the stream's
/// end.
pub open spec fn spec_range_text(
    tokens: Seq<u32>,
    surf: Seq<String>,
    start: int,
    end: int,
) -> Seq<char> {
    if start >= end || start >= tokens.len() {
        Seq::empty()
    } else if end <= tokens.len() {
        joined_str(tokens.subrange(start, end), surf)
    } else {
        joined_str(tokens.subrange(start, tokens.len() as int), surf)
    }
}

/// Surface text of a token range with clamping.
pub fn range_text(token_ids: &Vec<u32>, surfaces: &[String], start: usize, end: usize) -> (r:
    String)
    ensures
        r@ == spec_range_text(token_ids@, surfaces@, start as int, end as int),
{
    if start >= end || start >= token_ids.len() {
        let r = String::new();
        return r;
    }
    let actual_end = if end <= token_ids.len() {
        end
    } else {
        token_ids.len()
    };
    join_surfaces(token_ids, surfaces, start, actual_end)
}

/// Truncated text: unchanged when at most max_len characters, else the
/// first max_len - 3 characters followed by an ellipsis.
pub fn truncate_text(text: &str, max_len: usize) -> (r: String)
    requires
        max_len >= 3,
    ensures
        r@ == (if text@.len() <= max_len {
            text@
        } else {
            text@.subrange(0, max_len - 3) + "..."@
        }),
{
    let n = text.unicode_len();
    if n <= max_len {
        text.to_owned()
    } else {
        let cut = text.substring_char(0, max_len - 3);
        let r = cut.to_owned().concat("...");
        r
    }
}

/// The human-readable one-edge summary.
pub open spec fn spec_format_edge(e: ReuseEdge) -> Seq<char> {
    "Edge "@ + dec_str(e.id as int) + ": len="@ + dec_str(e.aligned_length as int) + " matches="@
        + dec_str(e.lemma_matches as int) + " subs="@ + dec_str(e.substitutions as int)
        + " gaps="@ + dec_str(e.gaps as int) + "\n  Core: "@ + percent1_str(
        e.core_similarity as int,
    ) + "%  Coverage: "@ + percent1_str(e.span_coverage as int) + "%  Weight: "@ + two_dec_str(
        e.content_weight as int,
    ) + "\n  Book "@ + dec_str(e.source_book_id as int) + " ["@ + page_loc_str(
        e.source_start_page.0 as int,
        e.source_start_page.1 as int,
        e.source_start_offset as int,
    ) + "\u{2192}"@ + page_loc_str(
        e.source_end_page.0 as int,
        e.source_end_page.1 as int,
        e.source_end_offset as int,
    ) + "] \u{2194} Book "@ + dec_str(e.target_book_id as int) + " ["@ + page_loc_str(
        e.target_start_page.0 as int,
        e.target_start_page.1 as int,
        e.target_start_offset as int,
    ) + "\u{2192}"@ + page_loc_str(
        e.target_end_page.0 as int,
        e.target_end_page.1 as int,
        e.target_end_offset as int,
    ) + "]"@
}

/// Format an edge as a human-readable string.
pub fn format_edge(edge: &ReuseEdge) -> (r: String)
    ensures
        r@ == spec_format_edge(*edge),
{
    let mut s = String::new();
    s.append("Edge ");
    push_u64(&mut s, edge.id);
    s.append(": len=");
    push_u64(&mut s, edge.aligned_length as u64);
    s.append(" matches=");
    push_u64(&mut s, edge.lemma_matches as u64);
    s.append(" subs=");
    push_u64(&mut s, edge.substitutions as u64);
    s.append(" gaps=");
    push_u64(&mut s, edge.gaps as u64);
    s.append("\n  Core: ");
    let core = format_percent1(edge.core_similarity);
    s.append(core.as_str());
    s.append("%  Coverage: ");
    let cov = format_percent1(edge.span_coverage);
    s.append(cov.as_str());
    s.append("%  Weight: ");
    let w = format_two_dec(edge.content_weight);
    s.append(w.as_str());
    s.append("\n  Book ");
    push_u64(&mut s, edge.source_book_id as u64);
    s.append(" [");
    let sl = format_page_location(
        edge.source_start_page.0,
        edge.source_start_page.1,
        edge.source_start_offset,
    );
    s.append(sl.as_str());
    s.append("\u{2192}");
    let se = format_page_location(
        edge.source_end_page.0,
        edge.source_end_page.1,
        edge.source_end_offset,
    );
    s.append(se.as_str());
    s.append("] \u{2194} Book ");
    push_u64(&mut s, edge.target_book_id as u64);
    s.append(" [");
    let tl = format_page_location(
        edge.target_start_page.0,
        edge.target_start_page.1,
        edge.target_start_offset,
    );
    s.append(tl.as_str());
    s.append("\u{2192}");
    let te = format_page_location(
        edge.target_end_page.0,
        edge.target_end_page.1,
        edge.target_end_offset,
    );
    s.append(te.as_str());
    s.append("]");
    proof {
        assert(s@ =~= spec_format_edge(*edge));
    }
    s
}

/// Format an edge with text as a human-readable string: the edge
/// summary followed by both matched passages, truncated to 100
/// characters.
pub fn format_edge_with_text(edge: &ReuseEdgeWithText) -> (r: String)
    ensures
        r@ == "Edge "@ + dec_str(edge.id as int) + ": len="@ + dec_str(
            edge.alignment.length as int,
        ) + " matches="@ + dec_str(edge.alignment.lemma_matches as int) + " gaps="@ + dec_str(
            edge.alignment.gaps as int,
        ) + "\nSource: "@ + (if edge.source.text.matched@.len() <= 100 {
            edge.source.text.matched@
        } else {
            edge.source.text.matched@.subrange(0, 97) + "..."@
        }) + "\nTarget: "@ + (if edge.target.text.matched@.len() <= 100 {
            edge.target.text.matched@
        } else {
            edge.target.text.matched@.subrange(0, 97) + "..."@
        }),
{
    let mut s = String::new();
    s.append("Edge ");
    push_u64(&mut s, edge.id);
    s.append(": len=");
    push_u64(&mut s, edge.alignment.length as u64);
    s.append(" matches=");
    push_u64(&mut s, edge.alignment.lemma_matches as u64);
    s.append(" gaps=");
    push_u64(&mut s, edge.alignment.gaps as u64);
    s.append("\nSource: ");
    let src = truncate_text(edge.source.text.matched.as_str(), 100);
    s.append(src.as_str());
    s.append("\nTarget: ");
    let tgt = truncate_text(edge.target.text.matched.as_str(), 100);
    s.append(tgt.as_str());
    proof {
        assert(s@ =~= "Edge "@ + dec_str(edge.id as int) + ": len="@ + dec_str(
            edge.alignment.length as int,
        ) + " matches="@ + dec_str(edge.alignment.lemma_matches as int) + " gaps="@ + dec_str(
            edge.alignment.gaps as int,
        ) + "\nSource: "@ + (if edge.source.text.matched@.len() <= 100 {
            edge.source.text.matched@
        } else {
            edge.source.text.matched@.subrange(0, 97) + "..."@
        }) + "\nTarget: "@ + (if edge.target.text.matched@.len() <= 100 {
            edge.target.text.matched@
        } else {
            edge.target.text.matched@.subrange(0, 97) + "..."@
        }));
    }
    s
}

/// One CSV row of an edge: every scalar field in declaration order,
/// comma-separated, ending in a newline. Per-mille metrics print as
/// plain integers.
pub open spec fn spec_csv_row(e: ReuseEdge) -> Seq<char> {
    dec_str(e.id as int) + ","@ + dec_str(e.source_book_id as int) + ","@ + dec_str(
        e.source_start_page.0 as int,
    ) + ","@ + dec_str(e.source_start_page.1 as int) + ","@ + dec_str(
        e.source_start_offset as int,
    ) + ","@ + dec_str(e.source_end_page.0 as int) + ","@ + dec_str(e.source_end_page.1 as int)
        + ","@ + dec_str(e.source_end_offset as int) + ","@ + dec_str(e.source_global_start as int)
        + ","@ + dec_str(e.source_global_end as int) + ","@ + dec_str(e.target_book_id as int)
        + ","@ + dec_str(e.target_start_page.0 as int) + ","@ + dec_str(
        e.target_start_page.1 as int,
    ) + ","@ + dec_str(e.target_start_offset as int) + ","@ + dec_str(e.target_end_page.0 as int)
        + ","@ + dec_str(e.target_end_page.1 as int) + ","@ + dec_str(e.target_end_offset as int)
        + ","@ + dec_str(e.target_global_start as int) + ","@ + dec_str(e.target_global_end as int)
        + ","@ + dec_str(e.aligned_length as int) + ","@ + dec_str(e.lemma_matches as int) + ","@
        + dec_str(e.substitutions as int) + ","@ + dec_str(e.root_only_matches as int) + ","@
        + dec_str(e.gaps as int) + ","@ + dec_str(e.core_similarity as int) + ","@ + dec_str(
        e.span_coverage as int,
    ) + ","@ + dec_str(e.content_weight as int) + ","@ + dec_str(e.lemma_similarity as int) + ","@
        + dec_str(e.combined_similarity as int) + ","@ + dec_str(e.weighted_similarity as int)
        + "\n"@
}

/// Append one number and a comma.
fn push_field(s: &mut String, v: u64)
    ensures
        final(s)@ == old(s)@ + dec_str(v as int) + ","@,
{
    push_u64(s, v);
    s.append(",");
}

/// Format one edge as a CSV row.
#[verifier::rlimit(100)]
pub fn format_csv_row(edge: &ReuseEdge) -> (r: String)
    ensures
        r@ == spec_csv_row(*edge),
{
    let mut s = String::new();
    push_field(&mut s, edge.id);
    push_field(&mut s, edge.source_book_id as u64);
    push_field(&mut s, edge.source_start_page.0 as u64);
    push_field(&mut s, edge.source_start_page.1 as u64);
    push_field(&mut s, edge.source_start_offset as u64);
    push_field(&mut s, edge.source_end_page.0 as u64);
    push_field(&mut s, edge.source_end_page.1 as u64);
    push_field(&mut s, edge.source_end_offset as u64);
    push_field(&mut s, edge.source_global_start as u64);
    push_field(&mut s, edge.source_global_end as u64);
    push_field(&mut s, edge.target_book_id as u64);
    push_field(&mut s, edge.target_start_page.0 as u64);
    push_field(&mut s, edge.target_start_page.1 as u64);
    push_field(&mut s, edge.target_start_offset as u64);
    push_field(&mut s, edge.target_end_page.0 as u64);
    push_field(&mut s, edge.target_end_page.1 as u64);
    push_field(&mut s, edge.target_end_offset as u64);
    push_field(&mut s, edge.target_global_start as u64);
    push_field(&mut s, edge.target_global_end as u64);
    push_field(&mut s, edge.aligned_length as u64);
    push_field(&mut s, edge.lemma_matches as u64);
    push_field(&mut s, edge.substitutions as u64);
    push_field(&mut s, edge.root_only_matches as u64);
    push_field(&mut s, edge.gaps as u64);
    push_field(&mut s, edge.core_similarity as u64);
    push_field(&mut s, edge.span_coverage as u64);
    push_field(&mut s, edge.content_weight as u64);
    push_field(&mut s, edge.lemma_similarity as u64);
    push_field(&mut s, edge.combined_similarity as u64);
    push_u64(&mut s, edge.weighted_similarity as u64);
    s.append("\n");
    proof {
        assert(s@ =~= spec_csv_row(*edge));
    }
    s
}

/// The CSV header row, naming every scalar field of an edge in order.
pub fn csv_header() -> (r: String)
    ensures
        r@ == "id,source_book_id,source_start_part,source_start_page,source_start_offset,source_end_part,source_end_page,source_end_offset,source_global_start,source_global_end,target_book_id,target_start_part,target_start_page,target_start_offset,target_end_part,target_end_page,target_end_offset,target_global_start,target_global_end,aligned_length,lemma_matches,substitutions,root_only_matches,gaps,core_similarity,span_coverage,content_weight,lemma_similarity,combined_similarity,weighted_similarity\n"@,
{
    "id,source_book_id,source_start_part,source_start_page,source_start_offset,source_end_part,source_end_page,source_end_offset,source_global_start,source_global_end,target_book_id,target_start_part,target_start_page,target_start_offset,target_end_part,target_end_page,target_end_offset,target_global_start,target_global_end,aligned_length,lemma_matches,substitutions,root_only_matches,gaps,core_similarity,span_coverage,content_weight,lemma_similarity,combined_similarity,weighted_similarity\n".to_owned()
}

/// The full CSV text of an edge list: the header followed by one row
/// per edge.
pub open spec fn spec_csv_rows(edges: Seq<ReuseEdge>) -> Seq<char>
    decreases edges.len(),
{
    if edges.len() == 0 {
        Seq::empty()
    } else {
        spec_csv_rows(edges.drop_last()) + spec_csv_row(edges.last())
    }
}

/// Render an edge list as CSV: header row, then one row per edge.
#[verifier::loop_isolation(false)]
#[verifier::rlimit(100)]
pub fn write_csv(edges: &Vec<ReuseEdge>) -> (r: String)
    ensures
        r@ == csv_header_view() + spec_csv_rows(edges@),
{
    let mut s = csv_header();
    let mut k: usize = 0;
    while k < edges.len()
        invariant
            k <= edges@.len(),
            s@ == csv_header_view() + spec_csv_rows(edges@.take(k as int)),
        decreases edges@.len() - k,
    {
        proof {
            assert(edges@.take(k + 1).drop_last() =~= edges@.take(k as int));
            assert(edges@.take(k + 1).last() == edges@[k as int]);
        }
        let row = format_csv_row(&edges[k]);
        s.append(row.as_str());
        proof {
            assert(s@ =~= csv_header_view() + spec_csv_rows(edges@.take(k + 1)));
        }
        k = k + 1;
    }
    proof {
        assert(edges@.take(edges@.len() as int) =~= edges@);
    }
    s
}

/// The header row as a character sequence.
pub open spec fn csv_header_view() -> Seq<char> {
    "id,source_book_id,source_start_part,source_start_page,source_start_offset,source_end_part,source_end_page,source_end_offset,source_global_start,source_global_end,target_book_id,target_start_part,target_start_page,target_start_offset,target_end_part,target_end_page,target_end_offset,target_global_start,target_global_end,aligned_length,lemma_matches,substitutions,root_only_matches,gaps,core_similarity,span_coverage,content_weight,lemma_similarity,combined_similarity,weighted_similarity\n"@
}


/// A text field's characters with every double quote doubled.
pub open spec fn csv_escaped(s: Seq<char>) -> Seq<char>
    decreases s.len(),
{
    if s.len() == 0 {
        Seq::empty()
    } else {
        csv_escaped(s.drop_last()) + (if s.last() == '"' {
            seq!['"', '"']
        } else {
            seq![s.last()]
        })
    }
}

/// A text field wrapped in double quotes, internal quotes doubled.
pub open spec fn csv_text_field(s: Seq<char>) -> Seq<char> {
    seq!['"'] + csv_escaped(s) + seq!['"']
}

/// Append a text field in CSV quoting.
#[verifier::loop_isolation(false)]
fn push_csv_field(out: &mut String, text: &str)
    ensures
        final(out)@ == old(out)@ + csv_text_field(text@),
{
    out.append("\"");
    proof {
        reveal_strlit("\"");
        assert("\""@ =~= seq!['"']);
        assert(csv_escaped(text@.take(0)) =~= Seq::<char>::empty());
        assert(out@ =~= old(out)@ + seq!['"'] + csv_escaped(text@.take(0)));
    }
    let n = text.unicode_len();
    let mut i: usize = 0;
    while i < n
        invariant
            n == text@.len(),
            i <= n,
            out@ == old(out)@ + seq!['"'] + csv_escaped(text@.take(i as int)),
        decreases n - i,
    {
        proof {
            assert(text@.take(i + 1).drop_last() =~= text@.take(i as int));
            assert(text@.take(i + 1).last() == text@[i as int]);
        }
        let c = text.get_char(i);
        if c == '"' {
            out.append("\"\"");
            proof {
                reveal_strlit("\"\"");
                assert("\"\""@ =~= seq!['"', '"']);
                assert(out@ =~= old(out)@ + seq!['"'] + csv_escaped(text@.take(i + 1)));
            }
        } else {
            let piece = text.substring_char(i, i + 1);
            out.append(piece);
            proof {
                assert(piece@ =~= seq![text@[i as int]]);
                assert(out@ =~= old(out)@ + seq!['"'] + csv_escaped(text@.take(i + 1)));
            }
        }
        i = i + 1;
    }
    out.append("\"");
    proof {
        reveal_strlit("\"");
        assert("\""@ =~= seq!['"']);
        assert(text@.take(n as int) =~= text@);
        assert(out@ =~= old(out)@ + csv_text_field(text@));
    }
}

/// One with-text CSV row: id, source book, location and global range,
/// the source's three text parts, the same for the target, then the
/// aligned length, lemma matches, gaps and per-mille lemma similarity,
/// newline-terminated. Location and text fields are double-quoted with
/// internal quotes doubled.
pub open spec fn spec_csv_text_row(e: ReuseEdgeWithText) -> Seq<char> {
    dec_str(e.id as int) + ","@ + dec_str(e.source.book_id as int) + ","@ + csv_text_field(
        e.source.location@,
    ) + ","@ + dec_str(e.source.global_range.0 as int) + ","@ + dec_str(
        e.source.global_range.1 as int,
    ) + ","@ + csv_text_field(e.source.text.before@) + ","@ + csv_text_field(
        e.source.text.matched@,
    ) + ","@ + csv_text_field(e.source.text.after@) + ","@ + dec_str(e.target.book_id as int)
        + ","@ + csv_text_field(e.target.location@) + ","@ + dec_str(
        e.target.global_range.0 as int,
    ) + ","@ + dec_str(e.target.global_range.1 as int) + ","@ + csv_text_field(
        e.target.text.before@,
    ) + ","@ + csv_text_field(e.target.text.matched@) + ","@ + csv_text_field(
        e.target.text.after@,
    ) + ","@ + dec_str(e.alignment.length as int) + ","@ + dec_str(
        e.alignment.lemma_matches as int,
    ) + ","@ + dec_str(e.alignment.gaps as int) + ","@ + dec_str(e.alignment.similarity as int)
        + "\n"@
}

/// Format one with-text edge as a CSV row.
#[verifier::rlimit(100)]
pub fn format_csv_text_row(edge: &ReuseEdgeWithText) -> (r: String)
    ensures
        r@ == spec_csv_text_row(*edge),
{
    let mut s = String::new();
    push_field(&mut s, edge.id);
    push_field(&mut s, edge.source.book_id as u64);
    push_csv_field(&mut s, edge.source.location.as_str());
    s.append(",");
    push_field(&mut s, edge.source.global_range.0 as u64);
    push_field(&mut s, edge.source.global_range.1 as u64);
    push_csv_field(&mut s, edge.source.text.before.as_str());
    s.append(",");
    push_csv_field(&mut s, edge.source.text.matched.as_str());
    s.append(",");
    push_csv_field(&mut s, edge.source.text.after.as_str());
    s.append(",");
    push_field(&mut s, edge.target.book_id as u64);
    push_csv_field(&mut s, edge.target.location.as_str());
    s.append(",");
    push_field(&mut s, edge.target.global_range.0 as u64);
    push_field(&mut s, edge.target.global_range.1 as u64);
    push_csv_field(&mut s, edge.target.text.before.as_str());
    s.append(",");
    push_csv_field(&mut s, edge.target.text.matched.as_str());
    s.append(",");
    push_csv_field(&mut s, edge.target.text.after.as_str());
    s.append(",");
    push_field(&mut s, edge.alignment.length as u64);
    push_field(&mut s, edge.alignment.lemma_matches as u64);
    push_field(&mut s, edge.alignment.gaps as u64);
    crate::output::push_u64(&mut s, edge.alignment.similarity as u64);
    s.append("\n");
    proof {
        assert(s@ =~= spec_csv_text_row(*edge));
    }
    s
}

/// The with-text CSV header row.
pub open spec fn csv_text_header_view() -> Seq<char> {
    "id,source_book_id,source_location,source_global_start,source_global_end,source_text_before,source_text_matched,source_text_after,target_book_id,target_location,target_global_start,target_global_end,target_text_before,target_text_matched,target_text_after,aligned_length,lemma_matches,gaps,similarity\n"@
}

/// The with-text CSV header row, naming every field of a row in order.
pub fn csv_text_header() -> (r: String)
    ensures
        r@ == csv_text_header_view(),
{
    "id,source_book_id,source_location,source_global_start,source_global_end,source_text_before,source_text_matched,source_text_after,target_book_id,target_location,target_global_start,target_global_end,target_text_before,target_text_matched,target_text_after,aligned_length,lemma_matches,gaps,similarity\n".to_owned()
}

/// The full with-text CSV text: the header followed by one row per
/// edge.
pub open spec fn spec_csv_text_rows(edges: Seq<ReuseEdgeWithText>) -> Seq<char>
    decreases edges.len(),
{
    if edges.len() == 0 {
        Seq::empty()
    } else {
        spec_csv_text_rows(edges.drop_last()) + spec_csv_text_row(edges.last())
    }
}

/// Render a with-text edge list as CSV: header row, then one row per
/// edge.
#[verifier::loop_isolation(false)]
#[verifier::rlimit(100)]
pub fn write_csv_with_text(edges: &Vec<ReuseEdgeWithText>) -> (r: String)
    ensures
        r@ == csv_text_header_view() + spec_csv_text_rows(edges@),
{
    let mut s = csv_text_header();
    let mut k: usize = 0;
    while k < edges.len()
        invariant
            k <= edges@.len(),
            s@ == csv_text_header_view() + spec_csv_text_rows(edges@.take(k as int)),
        decreases edges@.len() - k,
    {
        proof {
            assert(edges@.take(k + 1).drop_last() =~= edges@.take(k as int));
            assert(edges@.take(k + 1).last() == edges@[k as int]);
        }
        let row = format_csv_text_row(&edges[k]);
        s.append(row.as_str());
        proof {
            assert(s@ =~= csv_text_header_view() + spec_csv_text_rows(edges@.take(k + 1)));
        }
        k = k + 1;
    }
    proof {
        assert(edges@.take(edges@.len() as int) =~= edges@);
    }
    s
}

} // verus!