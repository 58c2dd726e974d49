//! Substring containment and line splitting over character sequences.

use vstd::prelude::*;

verus! {

/// The pattern `pat` occurs in `text` starting at character position `i`.
pub open spec fn match_at(text: Seq<char>, pat: Seq<char>, i: int) -> bool {
    &&& 0 <= i
    &&& i + pat.len() <= text.len()
    &&& text.subrange(i, i + pat.len() as int) == pat
}

/// The pattern `pat` occurs somewhere in `text` as a contiguous substring.
pub open spec fn has_substring(text: Seq<char>, pat: Seq<char>) -> bool {
    exists|i: int| match_at(text, pat, i)
}

/// Compare `pat` against the characters of `text` starting at position `i`.
fn match_at_exec(text: &str, pat: &str, i: usize, m: usize) -> (r: bool)
    requires
        m == pat@.len(),
        i + m <= text@.len(),
        text@.len() <= usize::MAX,
    ensures
        r == match_at(text@, pat@, i as int),
{
    let mut j: usize = 0;
    while j < m
        invariant
            m == pat@.len(),
            i + m <= text@.len(),
            text@.len() <= usize::MAX,
            j <= m,
            forall|t: int| 0 <= t < j ==> text@[i + t] == pat@[t],
        decreases m - j,
    {
        if text.get_char(i + j) != pat.get_char(j) {
            proof {
                if match_at(text@, pat@, i as int) {
                    assert(text@.subrange(i as int, i + m as int)[j as int] == pat@[j as int]);
                }
            }
            return false;
        }
        j += 1;
    }
    proof {
        assert(text@.subrange(i as int, i + m as int) =~= pat@);
    }
    true
}

/// Substring containment, by a direct scan of every candidate position.
/// Returns true exactly when `pat` occurs contiguously in `text`; an empty
/// pattern occurs in every text.
pub fn contains_str(text: &str, pat: &str) -> (r: bool)
    ensures
        r == has_substring(text@, pat@),
{
    let n = text.unicode_len();
    let m = pat.unicode_len();
    if m > n {
        proof {
            assert forall|k: int| !match_at(text@, pat@, k) by {}
        }
        return false;
    }
    let mut i: usize = 0;
    loop
        invariant
            n == text@.len(),
            m == pat@.len(),
            m <= n,
            i <= n - m,
            forall|k: int| 0 <= k < i ==> !match_at(text@, pat@, k),
        decreases n - m - i,
    {
        if match_at_exec(text, pat, i, m) {
            return true;
        }
        if i == n - m {
            proof {
                assert forall|k: int| !match_at(text@, pat@, k) by {
                    if 0 <= k <= i {
                        assert(!match_at(text@, pat@, k));
                    }
                }
            }
            return false;
        }
        i += 1;
    }
}

/// A carriage return that immediately precedes a line feed is not part of the
/// line's content: drop it from a segment that a line feed terminated.
pub open spec fn strip_cr(seg: Seq<char>) -> Seq<char> {
    if seg.len() > 0 && seg.last() == '\r' {
        seg.drop_last()
    } else {
        seg
    }
}

/// The lines of `text`, read left to right while `cur` holds the characters of
/// the line in progress. A line feed ends a line (and eats a preceding
/// carriage return); a final line needs no terminator; text that ends right
/// after a line feed yields no further line.
pub open spec fn lines_from(text: Seq<char>, cur: Seq<char>) -> Seq<Seq<char>>
    decreases text.len(),
{
    if text.len() == 0 {
        if cur.len() == 0 {
            Seq::empty()
        } else {
            seq![cur]
        }
    } else if text[0] == '\n' {
        seq![strip_cr(cur)] + lines_from(text.drop_first(), Seq::empty())
    } else {
        lines_from(text.drop_first(), cur.push(text[0]))
    }
}

/// The ordered sequence of lines of `text`.
pub open spec fn lines_of(text: Seq<char>) -> Seq<Seq<char>> {
    lines_from(text, Seq::empty())
}

/// Split `contents` into its lines, returned as views into `contents`,
/// in their original top-to-bottom order.
pub fn split_lines<'a>(contents: &'a str) -> (r: Vec<&'a str>)
    ensures
        r.deep_view() == lines_of(contents@),
{
    let n = contents.unicode_len();
    let mut out: Vec<&'a str> = Vec::new();
    let mut start: usize = 0;
    let mut i: usize = 0;
    proof {
        assert(contents@.subrange(0, n as int) =~= contents@);
        assert(contents@.subrange(0, 0) =~= Seq::<char>::empty());
        assert(out.deep_view() + lines_from(contents@, Seq::empty()) =~= lines_of(contents@));
    }
    while i < n
        invariant
            n == contents@.len(),
            start <= i <= n,
            lines_of(contents@) == out.deep_view() + lines_from(
                contents@.subrange(i as int, n as int),
                contents@.subrange(start as int, i as int),
            ),
        decreases n - i,
    {
        let ghost suffix = contents@.subrange(i as int, n as int);
        let ghost cur = contents@.subrange(start as int, i as int);
        proof {
            assert(suffix[0] == contents@[i as int]);
            assert(suffix.drop_first() =~= contents@.subrange(i + 1, n as int));
        }
        let c = contents.get_char(i);
        if c == '\n' {
            let mut stop = i;
            if i > start && contents.get_char(i - 1) == '\r' {
                stop = i - 1;
                proof {
                    assert(cur.last() == contents@[i - 1]);
                    assert(strip_cr(cur) =~= contents@.subrange(start as int, stop as int));
                }
            } else {
                proof {
                    if cur.len() > 0 {
                        assert(cur.last() == contents@[i - 1]);
                    }
                    assert(strip_cr(cur) =~= contents@.subrange(start as int, stop as int));
                }
            }
            let line = contents.substring_char(start, stop);
            out.push(line);
            proof {
                assert(contents@.subrange(i + 1, i + 1) =~= Seq::<char>::empty());
                assert(out.deep_view() =~= out.deep_view().subrange(
                    0,
                    out.deep_view().len() - 1,
                ) + seq![strip_cr(cur)]);
                assert(out.deep_view() + lines_from(
                    contents@.subrange(i + 1, n as int),
                    Seq::<char>::empty(),
                ) =~= lines_of(contents@));
            }
            start = i + 1;
        } else {
            proof {
                assert(cur.push(c) =~= contents@.subrange(start as int, i + 1));
            }
        }
        i += 1;
    }
    let ghost cur = contents@.subrange(start as int, n as int);
    proof {
        assert(contents@.subrange(n as int, n as int) =~= Seq::<char>::empty());
    }
    if start < n {
        let line = contents.substring_char(start, n);
        out.push(line);
        proof {
            assert(out.deep_view() =~= out.deep_view().subrange(
                0,
                out.deep_view().len() - 1,
            ) + seq![cur]);
        }
    }
    proof {
        assert(out.deep_view() =~= lines_of(contents@));
    }
    out
}

} // verus!
