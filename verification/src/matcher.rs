//! The two line matchers: exact and case-insensitive substring search over
//! the lines of a text body.

use crate::text::contains_str;
use crate::text::has_substring;
use crate::text::lines_of;
use crate::text::split_lines;
use vstd::prelude::*;

verus! {

/// The exact-match predicate on a line: the query occurs in it as-is.
pub open spec fn match_pred(query: Seq<char>) -> spec_fn(Seq<char>) -> bool {
    |line: Seq<char>| has_substring(line, query)
}

/// The lines of `contents` that contain `query` exactly, in original order.
pub open spec fn matching_lines(query: Seq<char>, contents: Seq<char>) -> Seq<Seq<char>> {
    lines_of(contents).filter(match_pred(query))
}

/// What `str::to_lowercase` returns for a given character sequence. The
/// Unicode lowercase mapping is a pure function of the characters alone; its
/// full table is not restated here.
pub uninterp spec fn lowered(s: Seq<char>) -> Seq<char>;

/// Relies on `str::to_lowercase`: the result is the Unicode lowercase
/// equivalent of the input, determined by the input characters alone, and an
/// empty input stays empty.
#[verifier::external_body]
fn lowercase(s: &str) -> (r: String)
    ensures
        r@ == lowered(s@),
        s@.len() == 0 ==> r@.len() == 0,
{
    s.to_lowercase()
}

/// The case-insensitive match predicate on a line: the lowered query occurs
/// in the lowered line.
pub open spec fn ci_match_pred(query: Seq<char>) -> spec_fn(Seq<char>) -> bool {
    |line: Seq<char>| has_substring(lowered(line), lowered(query))
}

/// The lines of `contents` that contain `query` ignoring case, in original
/// order.
pub open spec fn ci_matching_lines(query: Seq<char>, contents: Seq<char>) -> Seq<Seq<char>> {
    lines_of(contents).filter(ci_match_pred(query))
}

/// An empty pattern occurs in every text.
pub proof fn lemma_empty_pattern(text: Seq<char>, pat: Seq<char>)
    requires
        pat.len() == 0,
    ensures
        has_substring(text, pat),
{
    assert(text.subrange(0, 0) =~= pat);
    assert(crate::text::match_at(text, pat, 0));
}

/// Filtering keeps a sequence whole when every element satisfies the
/// predicate.
proof fn lemma_filter_all<A>(s: Seq<A>, pred: spec_fn(A) -> bool)
    requires
        forall|k: int| 0 <= k < s.len() ==> pred(s[k]),
    ensures
        s.filter(pred) == s,
    decreases s.len(),
{
    reveal(Seq::filter);
    if s.len() == 0 {
        assert(s.filter(pred) =~= s);
    } else {
        lemma_filter_all(s.drop_last(), pred);
        assert(pred(s.last()));
        assert(s.drop_last().push(s.last()) =~= s);
    }
}

/// `sub` can be read off `full` left to right: `sub` selects elements of
/// `full` without reordering or duplicating them.
pub open spec fn subsequence_of<A>(sub: Seq<A>, full: Seq<A>) -> bool
    decreases full.len(),
{
    if sub.len() == 0 {
        true
    } else if full.len() == 0 {
        false
    } else if sub.last() == full.last() {
        subsequence_of(sub.drop_last(), full.drop_last())
    } else {
        subsequence_of(sub, full.drop_last())
    }
}

/// Filtering a sequence yields an order-preserving selection of it.
proof fn lemma_filter_subsequence<A>(s: Seq<A>, pred: spec_fn(A) -> bool)
    ensures
        subsequence_of(s.filter(pred), s),
    decreases s.len(),
{
    reveal(Seq::filter);
    if s.len() > 0 {
        let g = s.drop_last().filter(pred);
        lemma_filter_subsequence(s.drop_last(), pred);
        if pred(s.last()) {
            assert(g.push(s.last()).drop_last() =~= g);
        } else {
            if g.len() > 0 {
                s.drop_last().lemma_filter_pred(pred, g.len() - 1);
                assert(pred(g.last()));
            }
        }
    }
}

/// Filtering drops a sequence whole when no element satisfies the predicate.
proof fn lemma_filter_none<A>(s: Seq<A>, pred: spec_fn(A) -> bool)
    requires
        forall|k: int| 0 <= k < s.len() ==> !pred(s[k]),
    ensures
        s.filter(pred) == Seq::<A>::empty(),
    decreases s.len(),
{
    reveal(Seq::filter);
    if s.len() > 0 {
        lemma_filter_none(s.drop_last(), pred);
        assert(!pred(s.last()));
    }
    assert(s.filter(pred) =~= Seq::<A>::empty());
}

/// When no line of the contents contains the query exactly, the exact
/// matcher reports nothing.
pub proof fn lemma_no_match_is_empty(query: Seq<char>, contents: Seq<char>)
    requires
        forall|j: int|
            0 <= j < lines_of(contents).len() ==> !has_substring(
                #[trigger] lines_of(contents)[j],
                query,
            ),
    ensures
        matching_lines(query, contents) == Seq::<Seq<char>>::empty(),
{
    lemma_filter_none(lines_of(contents), match_pred(query));
}

/// When no line of the contents contains the query under the lowered
/// comparison, the case-insensitive matcher reports nothing.
pub proof fn lemma_no_ci_match_is_empty(query: Seq<char>, contents: Seq<char>)
    requires
        forall|j: int|
            0 <= j < lines_of(contents).len() ==> !has_substring(
                lowered(#[trigger] lines_of(contents)[j]),
                lowered(query),
            ),
    ensures
        ci_matching_lines(query, contents) == Seq::<Seq<char>>::empty(),
{
    lemma_filter_none(lines_of(contents), ci_match_pred(query));
}

/// The exact matcher is sound and complete: every reported line contains the
/// query as a contiguous substring; the report selects lines of the input in
/// their original order; and every input line that contains the query is
/// reported.
pub proof fn lemma_search_sound_complete(query: Seq<char>, contents: Seq<char>)
    ensures
        forall|k: int|
            0 <= k < matching_lines(query, contents).len() ==> has_substring(
                #[trigger] matching_lines(query, contents)[k],
                query,
            ),
        subsequence_of(matching_lines(query, contents), lines_of(contents)),
        forall|j: int|
            0 <= j < lines_of(contents).len() && has_substring(
                #[trigger] lines_of(contents)[j],
                query,
            ) ==> matching_lines(query, contents).contains(lines_of(contents)[j]),
{
    let pred = match_pred(query);
    assert forall|k: int| 0 <= k < matching_lines(query, contents).len() implies has_substring(
        #[trigger] matching_lines(query, contents)[k],
        query,
    ) by {
        lines_of(contents).lemma_filter_pred(pred, k);
    }
    lemma_filter_subsequence(lines_of(contents), pred);
    assert forall|j: int|
        0 <= j < lines_of(contents).len() && has_substring(
            #[trigger] lines_of(contents)[j],
            query,
        ) implies matching_lines(query, contents).contains(lines_of(contents)[j]) by {
        lines_of(contents).lemma_filter_contains(pred, j);
    }
}

/// The case-insensitive matcher is sound and complete: every reported line
/// contains the query once both are lowered; the report selects lines of the
/// input in their original order; and every input line that contains the
/// query under the lowered comparison is reported.
pub proof fn lemma_search_ci_sound_complete(query: Seq<char>, contents: Seq<char>)
    ensures
        forall|k: int|
            0 <= k < ci_matching_lines(query, contents).len() ==> has_substring(
                lowered(#[trigger] ci_matching_lines(query, contents)[k]),
                lowered(query),
            ),
        subsequence_of(ci_matching_lines(query, contents), lines_of(contents)),
        forall|j: int|
            0 <= j < lines_of(contents).len() && has_substring(
                lowered(#[trigger] lines_of(contents)[j]),
                lowered(query),
            ) ==> ci_matching_lines(query, contents).contains(lines_of(contents)[j]),
{
    let pred = ci_match_pred(query);
    assert forall|k: int| 0 <= k < ci_matching_lines(query, contents).len() implies has_substring(
        lowered(#[trigger] ci_matching_lines(query, contents)[k]),
        lowered(query),
    ) by {
        lines_of(contents).lemma_filter_pred(pred, k);
    }
    lemma_filter_subsequence(lines_of(contents), pred);
    assert forall|j: int|
        0 <= j < lines_of(contents).len() && has_substring(
            lowered(#[trigger] lines_of(contents)[j]),
            lowered(query),
        ) implies ci_matching_lines(query, contents).contains(lines_of(contents)[j]) by {
        lines_of(contents).lemma_filter_contains(pred, j);
    }
}

/// Report the lines of `contents` that contain `query` as an exact,
/// case-sensitive, contiguous substring, as views into `contents`, in their
/// original order. An empty query matches every line.
pub fn search<'a>(query: &str, contents: &'a str) -> (r: Vec<&'a str>)
    ensures
        r.deep_view() == matching_lines(query@, contents@),
        query@.len() == 0 ==> r.deep_view() == lines_of(contents@),
{
    let lines = split_lines(contents);
    let ghost pred = match_pred(query@);
    let mut out: Vec<&'a str> = Vec::new();
    let mut k: usize = 0;
    proof {
        reveal(Seq::filter);
        assert(lines.deep_view().subrange(0, 0) =~= Seq::<Seq<char>>::empty());
    }
    while k < lines.len()
        invariant
            lines.deep_view() == lines_of(contents@),
            lines.deep_view().len() == lines@.len(),
            k <= lines@.len(),
            pred == match_pred(query@),
            out.deep_view() == lines.deep_view().subrange(0, k as int).filter(pred),
        decreases lines@.len() - k,
    {
        let ghost seen = lines.deep_view().subrange(0, k as int);
        let line = lines[k];
        proof {
            assert(line@ == lines.deep_view()[k as int]);
            seen.lemma_filter_push(line@, pred);
            assert(seen.push(line@) =~= lines.deep_view().subrange(0, k + 1));
        }
        if contains_str(line, query) {
            out.push(line);
            proof {
                assert(out.deep_view() =~= seen.filter(pred).push(line@));
            }
        }
        k += 1;
    }
    proof {
        assert(lines.deep_view().subrange(0, lines@.len() as int) =~= lines.deep_view());
        if query@.len() == 0 {
            assert forall|j: int| 0 <= j < lines_of(contents@).len() implies pred(
                lines_of(contents@)[j],
            ) by {
                lemma_empty_pattern(lines_of(contents@)[j], query@);
            }
            lemma_filter_all(lines_of(contents@), pred);
        }
    }
    out
}

/// Report the lines of `contents` that contain `query` under a
/// case-insensitive comparison: both the line and the query are lowered by
/// the Unicode lowercase mapping before the substring test. Results are views
/// into `contents` (the original lines, not their lowered copies), in their
/// original order. An empty query matches every line.
pub fn search_case_insensitive<'a>(query: &str, contents: &'a str) -> (r: Vec<&'a str>)
    ensures
        r.deep_view() == ci_matching_lines(query@, contents@),
        query@.len() == 0 ==> r.deep_view() == lines_of(contents@),
{
    let lowered_query = lowercase(query);
    let lines = split_lines(contents);
    let ghost pred = ci_match_pred(query@);
    let mut out: Vec<&'a str> = Vec::new();
    let mut k: usize = 0;
    proof {
        reveal(Seq::filter);
        assert(lines.deep_view().subrange(0, 0) =~= Seq::<Seq<char>>::empty());
    }
    while k < lines.len()
        invariant
            lines.deep_view() == lines_of(contents@),
            lines.deep_view().len() == lines@.len(),
            k <= lines@.len(),
            pred == ci_match_pred(query@),
            lowered_query@ == lowered(query@),
            out.deep_view() == lines.deep_view().subrange(0, k as int).filter(pred),
        decreases lines@.len() - k,
    {
        let ghost seen = lines.deep_view().subrange(0, k as int);
        let line = lines[k];
        proof {
            assert(line@ == lines.deep_view()[k as int]);
            seen.lemma_filter_push(line@, pred);
            assert(seen.push(line@) =~= lines.deep_view().subrange(0, k + 1));
        }
        let lowered_line = lowercase(line);
        if contains_str(lowered_line.as_str(), lowered_query.as_str()) {
            out.push(line);
            proof {
                assert(out.deep_view() =~= seen.filter(pred).push(line@));
            }
        }
        k += 1;
    }
    proof {
        assert(lines.deep_view().subrange(0, lines@.len() as int) =~= lines.deep_view());
        if query@.len() == 0 {
            assert(lowered(query@).len() == 0);
            assert forall|j: int| 0 <= j < lines_of(contents@).len() implies pred(
                lines_of(contents@)[j],
            ) by {
                lemma_empty_pattern(lowered(lines_of(contents@)[j]), lowered(query@));
            }
            lemma_filter_all(lines_of(contents@), pred);
        }
    }
    out
}

} // verus!
