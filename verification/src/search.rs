//! The line searcher: every line of a document that contains a query.
//!
//! Two matching policies are offered: exact substring matching and
//! case-insensitive matching, where query and candidate line are folded to
//! lowercase before the substring test. Under either policy the returned
//! lines are slices into the original document, in document order, with
//! their original casing.

use crate::lines::{lemma_lines_are_substrings, lines_of, split_lines};
use crate::matching::{
    contains_query, fold_case, is_substring_of, lemma_fold_preserves_substring,
    lemma_substring_transitive,
};
use vstd::prelude::*;
use vstd::seq_lib::*;

verus! {

/// The lines of document `d` that contain `q` as an exact substring, in
/// document order.
pub open spec fn matching_lines(q: Seq<char>, d: Seq<char>) -> Seq<Seq<char>> {
    lines_of(d).filter(|l: Seq<char>| is_substring_of(q, l))
}

/// The lines of document `d` that contain `q` as a substring up to case
/// folding, in document order.
pub open spec fn ci_matching_lines(q: Seq<char>, d: Seq<char>) -> Seq<Seq<char>> {
    lines_of(d).filter(|l: Seq<char>| is_substring_of(fold_case(q), fold_case(l)))
}

/// The lines of `contents` kept by one of the two matching policies, in
/// document order: exact matching when `fold` is unset, case-insensitive
/// matching when it is set.
fn filter_lines<'a>(query: &str, contents: &'a str, fold: bool) -> (r: Vec<&'a str>)
    ensures
        !fold ==> r.deep_view() == matching_lines(query@, contents@),
        fold ==> r.deep_view() == ci_matching_lines(query@, contents@),
{
    let lines = split_lines(contents);
    let ghost all = lines.deep_view();
    let n = lines.len();
    let mut r: Vec<&'a str> = Vec::new();
    let mut i: usize = 0;
    proof {
        reveal(Seq::filter);
        assert(all.take(0) =~= Seq::<Seq<char>>::empty());
        assert(r.deep_view() =~= Seq::<Seq<char>>::empty());
    }
    while i < n
        invariant
            n == lines.len(),
            all == lines.deep_view(),
            all == lines_of(contents@),
            i <= n,
            !fold ==> r.deep_view() == all.take(i as int).filter(
                |l: Seq<char>| is_substring_of(query@, l),
            ),
            fold ==> r.deep_view() == all.take(i as int).filter(
                |l: Seq<char>| is_substring_of(fold_case(query@), fold_case(l)),
            ),
        decreases n - i,
    {
        let line = lines[i];
        let kept = contains_query(query, line, fold);
        let ghost r0 = r.deep_view();
        if kept {
            r.push(line);
        }
        proof {
            reveal(Seq::filter);
            assert(all[i as int] == line@);
            assert(all.take(i + 1).drop_last() =~= all.take(i as int));
            assert(all.take(i + 1).last() == all[i as int]);
            if kept {
                assert(r.deep_view() =~= r0.push(line@));
            }
        }
        i += 1;
    }
    proof {
        assert(all.take(n as int) =~= all);
    }
    r
}

/// Every line of `contents` that contains `query` as an exact substring, as
/// slices into `contents`, in document order. An empty query matches every
/// line; a query longer than the document matches nothing; no input is an
/// error.
pub fn search<'a>(query: &str, contents: &'a str) -> (r: Vec<&'a str>)
    ensures
        r.deep_view() == matching_lines(query@, contents@),
{
    filter_lines(query, contents, false)
}

/// Every line of `contents` that contains `query` as a substring once both
/// are folded to lowercase, as slices into `contents`, in document order.
/// The returned lines keep their original casing: folding is used for the
/// comparison only.
pub fn search_case_insensitive<'a>(query: &str, contents: &'a str) -> (r: Vec<&'a str>)
    ensures
        r.deep_view() == ci_matching_lines(query@, contents@),
{
    filter_lines(query, contents, true)
}

/// `x` can be obtained from `y` by deleting elements: every member of `x`
/// occurs in `y`, and in the same relative order.
pub open spec fn subsequence_of<A>(x: Seq<A>, y: Seq<A>) -> bool
    decreases y.len(),
{
    if x.len() == 0 {
        true
    } else if y.len() == 0 {
        false
    } else if x.last() == y.last() && subsequence_of(x.drop_last(), y.drop_last()) {
        true
    } else {
        subsequence_of(x, y.drop_last())
    }
}

/// Filtering a sequence yields a subsequence of it.
proof fn lemma_filter_is_subsequence<A>(s: Seq<A>, pred: spec_fn(A) -> bool)
    ensures
        subsequence_of(s.filter(pred), s),
    decreases s.len(),
{
    reveal(Seq::filter);
    if s.len() > 0 {
        lemma_filter_is_subsequence(s.drop_last(), pred);
        let f = s.filter(pred);
        let fd = s.drop_last().filter(pred);
        if pred(s.last()) {
            assert(f == fd.push(s.last()));
            assert(f.drop_last() =~= fd);
        }
    }
}

/// Every member of a filtered sequence is a member of the original.
proof fn lemma_filter_members<A>(s: Seq<A>, pred: spec_fn(A) -> bool)
    ensures
        forall|k: int| 0 <= k < s.filter(pred).len() ==> s.contains(#[trigger] s.filter(pred)[k]),
    decreases s.len(),
{
    reveal(Seq::filter);
    if s.len() > 0 {
        lemma_filter_members(s.drop_last(), pred);
        assert forall|k: int| 0 <= k < s.filter(pred).len() implies s.contains(
            s.filter(pred)[k],
        ) by {
            let f = s.filter(pred);
            let fd = s.drop_last().filter(pred);
            if pred(s.last()) && k == f.len() - 1 {
                assert(s[s.len() - 1] == f[k]);
            } else {
                assert(f[k] == fd[k]);
                assert(s.drop_last().contains(fd[k]));
                let j = choose|j: int| 0 <= j < s.drop_last().len() && s.drop_last()[j] == fd[k];
                assert(s[j] == fd[k]);
            }
        }
    }
}

/// A filter whose predicate holds of every element keeps the sequence
/// unchanged.
proof fn lemma_filter_retains_all<A>(s: Seq<A>, pred: spec_fn(A) -> bool)
    requires
        forall|i: int| 0 <= i < s.len() ==> pred(#[trigger] s[i]),
    ensures
        s.filter(pred) == s,
    decreases s.len(),
{
    reveal(Seq::filter);
    if s.len() > 0 {
        assert(forall|i: int| 0 <= i < s.drop_last().len() ==> s.drop_last()[i] == s[i]);
        lemma_filter_retains_all(s.drop_last(), pred);
        assert(s.filter(pred) =~= s);
    }
}

/// A filter whose predicate holds of no element keeps nothing.
proof fn lemma_filter_retains_none<A>(s: Seq<A>, pred: spec_fn(A) -> bool)
    requires
        forall|i: int| 0 <= i < s.len() ==> !pred(#[trigger] s[i]),
    ensures
        s.filter(pred) == Seq::<A>::empty(),
    decreases s.len(),
{
    reveal(Seq::filter);
    if s.len() == 0 {
        assert(s.filter(pred) =~= Seq::<A>::empty());
    } else {
        assert(forall|i: int| 0 <= i < s.drop_last().len() ==> s.drop_last()[i] == s[i]);
        lemma_filter_retains_none(s.drop_last(), pred);
    }
}

/// The empty sequence occurs in every sequence as a substring.
proof fn lemma_empty_is_substring(t: Seq<char>)
    ensures
        is_substring_of(Seq::empty(), t),
{
    let q = Seq::<char>::empty();
    assert(t.subrange(0, 0 + q.len() as int) =~= q);
}

/// `search` is sound and order-preserving: it returns a subsequence of the
/// document's lines, every member of which contains the query as an exact
/// substring.
pub proof fn lemma_search_sound(q: Seq<char>, d: Seq<char>)
    ensures
        subsequence_of(matching_lines(q, d), lines_of(d)),
        forall|k: int| 0 <= k < matching_lines(q, d).len() ==> is_substring_of(
            q,
            #[trigger] matching_lines(q, d)[k],
        ),
{
    let pred = |l: Seq<char>| is_substring_of(q, l);
    lemma_filter_is_subsequence(lines_of(d), pred);
    assert forall|k: int| 0 <= k < matching_lines(q, d).len() implies is_substring_of(
        q,
        matching_lines(q, d)[k],
    ) by {
        lines_of(d).lemma_filter_pred(pred, k);
    }
}

/// `search_case_insensitive` is sound and order-preserving: it returns a
/// subsequence of the document's lines, every member of which contains the
/// query as a substring once both are folded.
pub proof fn lemma_search_case_insensitive_sound(q: Seq<char>, d: Seq<char>)
    ensures
        subsequence_of(ci_matching_lines(q, d), lines_of(d)),
        forall|k: int| 0 <= k < ci_matching_lines(q, d).len() ==> is_substring_of(
            fold_case(q),
            fold_case(#[trigger] ci_matching_lines(q, d)[k]),
        ),
{
    let pred = |l: Seq<char>| is_substring_of(fold_case(q), fold_case(l));
    lemma_filter_is_subsequence(lines_of(d), pred);
    assert forall|k: int| 0 <= k < ci_matching_lines(q, d).len() implies is_substring_of(
        fold_case(q),
        fold_case(ci_matching_lines(q, d)[k]),
    ) by {
        lines_of(d).lemma_filter_pred(pred, k);
    }
}

/// Every case-sensitive match is also a case-insensitive match: each line
/// that `search` returns appears among the lines that
/// `search_case_insensitive` returns.
pub proof fn lemma_insensitive_superset_of_sensitive(q: Seq<char>, d: Seq<char>)
    ensures
        forall|x: Seq<char>| matching_lines(q, d).contains(x) ==> ci_matching_lines(
            q,
            d,
        ).contains(x),
{
    let pred = |l: Seq<char>| is_substring_of(q, l);
    let ci_pred = |l: Seq<char>| is_substring_of(fold_case(q), fold_case(l));
    assert forall|x: Seq<char>| matching_lines(q, d).contains(x) implies ci_matching_lines(
        q,
        d,
    ).contains(x) by {
        let k = choose|k: int|
            0 <= k < matching_lines(q, d).len() && matching_lines(q, d)[k] == x;
        lines_of(d).lemma_filter_pred(pred, k);
        lemma_filter_members(lines_of(d), pred);
        assert(lines_of(d).contains(x));
        let j = choose|j: int| 0 <= j < lines_of(d).len() && lines_of(d)[j] == x;
        lemma_fold_preserves_substring(q, x);
        lines_of(d).lemma_filter_contains(ci_pred, j);
    }
}

/// `search` is deterministic: two results obtained from identical inputs
/// are identical. Any result meets `search`'s contract, which pins it to
/// `matching_lines`.
pub proof fn lemma_search_deterministic(
    q: Seq<char>,
    d: Seq<char>,
    r1: Seq<Seq<char>>,
    r2: Seq<Seq<char>>,
)
    requires
        r1 == matching_lines(q, d),
        r2 == matching_lines(q, d),
    ensures
        r1 == r2,
{
}

/// `search_case_insensitive` is deterministic: two results obtained from
/// identical inputs are identical. Any result meets its contract, which
/// pins it to `ci_matching_lines`.
pub proof fn lemma_search_case_insensitive_deterministic(
    q: Seq<char>,
    d: Seq<char>,
    r1: Seq<Seq<char>>,
    r2: Seq<Seq<char>>,
)
    requires
        r1 == ci_matching_lines(q, d),
        r2 == ci_matching_lines(q, d),
    ensures
        r1 == r2,
{
}

/// The empty query matches every line: searching for it returns the whole
/// document, line by line, under either matching policy.
pub proof fn lemma_empty_query_matches_every_line(d: Seq<char>)
    ensures
        matching_lines(Seq::empty(), d) == lines_of(d),
        ci_matching_lines(Seq::empty(), d) == lines_of(d),
{
    let q = Seq::<char>::empty();
    assert(fold_case(q) =~= q);
    assert forall|i: int| 0 <= i < lines_of(d).len() implies is_substring_of(
        q,
        #[trigger] lines_of(d)[i],
    ) && is_substring_of(fold_case(q), fold_case(lines_of(d)[i])) by {
        lemma_empty_is_substring(lines_of(d)[i]);
        lemma_empty_is_substring(fold_case(lines_of(d)[i]));
    }
    lemma_filter_retains_all(lines_of(d), |l: Seq<char>| is_substring_of(q, l));
    lemma_filter_retains_all(lines_of(d), |l: Seq<char>| is_substring_of(fold_case(q), fold_case(l)));
}

/// A query that does not occur anywhere in the document matches no line.
pub proof fn lemma_absent_query_finds_nothing(q: Seq<char>, d: Seq<char>)
    requires
        !is_substring_of(q, d),
    ensures
        matching_lines(q, d) == Seq::<Seq<char>>::empty(),
{
    lemma_lines_are_substrings(d);
    assert forall|i: int| 0 <= i < lines_of(d).len() implies !is_substring_of(
        q,
        #[trigger] lines_of(d)[i],
    ) by {
        if is_substring_of(q, lines_of(d)[i]) {
            lemma_substring_transitive(q, lines_of(d)[i], d);
        }
    }
    lemma_filter_retains_none(lines_of(d), |l: Seq<char>| is_substring_of(q, l));
}

/// A query that does not occur anywhere in the folded document matches no
/// line case-insensitively.
pub proof fn lemma_absent_query_finds_nothing_case_insensitive(q: Seq<char>, d: Seq<char>)
    requires
        !is_substring_of(fold_case(q), fold_case(d)),
    ensures
        ci_matching_lines(q, d) == Seq::<Seq<char>>::empty(),
{
    lemma_lines_are_substrings(d);
    assert forall|i: int| 0 <= i < lines_of(d).len() implies !is_substring_of(
        fold_case(q),
        fold_case(#[trigger] lines_of(d)[i]),
    ) by {
        if is_substring_of(fold_case(q), fold_case(lines_of(d)[i])) {
            lemma_fold_preserves_substring(lines_of(d)[i], d);
            lemma_substring_transitive(fold_case(q), fold_case(lines_of(d)[i]), fold_case(d));
        }
    }
    lemma_filter_retains_none(
        lines_of(d),
        |l: Seq<char>| is_substring_of(fold_case(q), fold_case(l)),
    );
}

/// Case folding affects matching only: every line that the case-insensitive
/// search returns is a line of the original document, with its original
/// casing.
pub proof fn lemma_folding_never_rewrites_lines(q: Seq<char>, d: Seq<char>)
    ensures
        forall|k: int| 0 <= k < ci_matching_lines(q, d).len() ==> lines_of(d).contains(
            #[trigger] ci_matching_lines(q, d)[k],
        ),
{
    lemma_filter_members(
        lines_of(d),
        |l: Seq<char>| is_substring_of(fold_case(q), fold_case(l)),
    );
}

} // verus!
