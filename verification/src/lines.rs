//! Splitting a document into lines.
//!
//! A document is a sequence of characters. Lines are separated by `'\n'`,
//! which is treated as the sole separator; a trailing `'\r'` is stripped from
//! every line, so both `"\n"` and `"\r\n"` line endings are handled. The
//! final line ending is optional: a document that ends in `'\n'` has no extra
//! empty line at the end, and the empty document has no lines at all.

use crate::matching::{is_substring_of, lemma_subrange_is_substring, lemma_substring_transitive};
use vstd::prelude::*;
use vstd::string::StrSliceExecFns;

verus! {

/// `l` with one trailing carriage return removed, if it has one.
pub open spec fn strip_cr(l: Seq<char>) -> Seq<char> {
    if l.len() > 0 && l[l.len() - 1] == '\r' {
        l.take(l.len() - 1)
    } else {
        l
    }
}

/// Position of the first `'\n'` in `d`, or `d.len()` if there is none.
pub open spec fn line_break(d: Seq<char>) -> nat
    decreases d.len(),
{
    if d.len() == 0 {
        0
    } else if d[0] == '\n' {
        0
    } else {
        1 + line_break(d.skip(1))
    }
}

/// `line_break(d)` is in range, everything before it is not a newline, and it
/// points at a newline unless `d` has none.
pub proof fn lemma_line_break(d: Seq<char>)
    ensures
        line_break(d) <= d.len(),
        forall|k: int| 0 <= k < line_break(d) ==> d[k] != '\n',
        line_break(d) < d.len() ==> d[line_break(d) as int] == '\n',
    decreases d.len(),
{
    if d.len() == 0 {
    } else if d[0] == '\n' {
    } else {
        lemma_line_break(d.skip(1));
        assert forall|k: int| 0 <= k < line_break(d) implies d[k] != '\n' by {
            if k > 0 {
                assert(d.skip(1)[k - 1] == d[k]);
            }
        }
        if line_break(d) < d.len() {
            assert(d.skip(1)[line_break(d) - 1] == d[line_break(d) as int]);
        }
    }
}

/// A position with no newline before it, and a newline (or the document's
/// end) at it, is exactly `line_break(d)`.
pub proof fn lemma_line_break_at(d: Seq<char>, j: int)
    requires
        0 <= j <= d.len(),
        forall|k: int| 0 <= k < j ==> d[k] != '\n',
        j < d.len() ==> d[j] == '\n',
    ensures
        line_break(d) == j,
    decreases d.len(),
{
    if d.len() == 0 {
    } else if d[0] == '\n' {
        assert(j == 0);
    } else {
        assert(j >= 1);
        assert forall|k: int| 0 <= k < j - 1 implies d.skip(1)[k] != '\n' by {
            assert(d.skip(1)[k] == d[k + 1]);
        }
        assert(j - 1 < d.skip(1).len() ==> d.skip(1)[j - 1] == d[j]);
        lemma_line_break_at(d.skip(1), j - 1);
    }
}

/// The lines of document `d`, in document order: `d` is split at each `'\n'`,
/// a trailing `'\r'` is stripped from every piece, and a final empty piece
/// produced by a terminating `'\n'` is dropped.
pub open spec fn lines_of(d: Seq<char>) -> Seq<Seq<char>>
    decreases d.len(),
{
    if d.len() == 0 {
        Seq::empty()
    } else if line_break(d) < d.len() {
        seq![strip_cr(d.take(line_break(d) as int))] + lines_of(
            d.skip(line_break(d) as int + 1),
        )
    } else {
        seq![strip_cr(d)]
    }
}

/// Every line of a document occurs in the document as a contiguous
/// substring: splitting only removes separators, it never rewrites content.
pub proof fn lemma_lines_are_substrings(d: Seq<char>)
    ensures
        forall|k: int| 0 <= k < lines_of(d).len() ==> is_substring_of(
            #[trigger] lines_of(d)[k],
            d,
        ),
    decreases d.len(),
{
    if d.len() == 0 {
    } else {
        lemma_line_break(d);
        let b = line_break(d) as int;
        if b < d.len() {
            lemma_lines_are_substrings(d.skip(b + 1));
            assert forall|k: int| 0 <= k < lines_of(d).len() implies is_substring_of(
                lines_of(d)[k],
                d,
            ) by {
                if k == 0 {
                    assert(lines_of(d)[0] == strip_cr(d.take(b)));
                    lemma_strip_cr_take_is_substring(d, b);
                } else {
                    assert(lines_of(d)[k] == lines_of(d.skip(b + 1))[k - 1]);
                    assert(d.skip(b + 1) =~= d.subrange(b + 1, d.len() as int));
                    lemma_subrange_is_substring(d, b + 1, d.len() as int);
                    lemma_substring_transitive(lines_of(d)[k], d.skip(b + 1), d);
                }
            }
        } else {
            assert(lines_of(d)[0] == strip_cr(d));
            assert(d.take(d.len() as int) =~= d);
            lemma_strip_cr_take_is_substring(d, d.len() as int);
        }
    }
}

/// The prefix of `d` of length `e`, with a trailing carriage return
/// removed, occurs in `d` as a contiguous substring.
proof fn lemma_strip_cr_take_is_substring(d: Seq<char>, e: int)
    requires
        0 <= e <= d.len(),
    ensures
        is_substring_of(strip_cr(d.take(e)), d),
{
    let piece = d.take(e);
    if piece.len() > 0 && piece[e - 1] == '\r' {
        assert(strip_cr(piece) =~= d.subrange(0, e - 1));
        lemma_subrange_is_substring(d, 0, e - 1);
    } else {
        assert(strip_cr(piece) =~= d.subrange(0, e));
        lemma_subrange_is_substring(d, 0, e);
    }
}

/// One line of `contents`: the characters from `start` (inclusive) to `end`
/// (exclusive), with a trailing carriage return removed.
fn extract_line<'a>(contents: &'a str, start: usize, end: usize) -> (line: &'a str)
    requires
        start <= end <= contents@.len(),
    ensures
        line@ == strip_cr(contents@.subrange(start as int, end as int)),
{
    let ghost piece = contents@.subrange(start as int, end as int);
    let stop = if end > start && contents.get_char(end - 1) == '\r' {
        end - 1
    } else {
        end
    };
    proof {
        assert(piece.len() == end - start);
        if end > start {
            assert(piece[piece.len() - 1] == contents@[end - 1]);
        }
        if stop < end {
            assert(contents@.subrange(start as int, stop as int) =~= piece.take(
                piece.len() - 1,
            ));
        } else {
            assert(contents@.subrange(start as int, stop as int) =~= piece);
        }
    }
    contents.substring_char(start, stop)
}

/// The lines of `contents`, as slices into `contents`, in document order.
pub fn split_lines<'a>(contents: &'a str) -> (r: Vec<&'a str>)
    ensures
        r.deep_view() == lines_of(contents@),
{
    let ghost d = contents@;
    let n = contents.unicode_len();
    let mut r: Vec<&'a str> = Vec::new();
    let mut start: usize = 0;
    let mut i: usize = 0;
    proof {
        assert(d.skip(0) =~= d);
        assert(r.deep_view() =~= Seq::<Seq<char>>::empty());
        assert(r.deep_view() + lines_of(d.skip(0)) =~= lines_of(d));
    }
    while i < n
        invariant
            n == d.len(),
            d == contents@,
            start <= i <= n,
            forall|k: int| start <= k < i ==> d[k] != '\n',
            r.deep_view() + lines_of(d.skip(start as int)) == lines_of(d),
        decreases n - i,
    {
        if contents.get_char(i) == '\n' {
            let ghost r0 = r.deep_view();
            let line = extract_line(contents, start, i);
            r.push(line);
            proof {
                let suf = d.skip(start as int);
                let b: int = i - start;
                assert forall|k: int| 0 <= k < b implies suf[k] != '\n' by {
                    assert(suf[k] == d[start + k]);
                }
                assert(suf[b] == d[i as int]);
                lemma_line_break_at(suf, b);
                assert(suf.take(b) =~= d.subrange(start as int, i as int));
                assert(suf.skip(b + 1) =~= d.skip(i + 1));
                assert(lines_of(suf) == seq![line@] + lines_of(d.skip(i + 1)));
                assert(r.deep_view() =~= r0.push(line@));
                assert(r.deep_view() + lines_of(d.skip(i + 1)) =~= r0 + lines_of(suf));
            }
            start = i + 1;
        }
        i += 1;
    }
    if start < n {
        let ghost r0 = r.deep_view();
        let line = extract_line(contents, start, n);
        r.push(line);
        proof {
            let suf = d.skip(start as int);
            assert forall|k: int| 0 <= k < suf.len() implies suf[k] != '\n' by {
                assert(suf[k] == d[start + k]);
            }
            lemma_line_break_at(suf, suf.len() as int);
            assert(suf =~= d.subrange(start as int, n as int));
            assert(lines_of(suf) == seq![line@]);
            assert(r.deep_view() =~= r0.push(line@));
            assert(r.deep_view() =~= r0 + lines_of(suf));
        }
    } else {
        proof {
            assert(d.skip(start as int) =~= Seq::<char>::empty());
            assert(lines_of(d.skip(start as int)) == Seq::<Seq<char>>::empty());
            assert(r.deep_view() =~= r.deep_view() + Seq::<Seq<char>>::empty());
        }
    }
    r
}

} // verus!
