//! Substring matching, exact or up to case folding.
//!
//! Case folding is the simple, locale-independent mapping that sends the
//! ASCII uppercase letters `'A'..='Z'` to their lowercase counterparts and
//! leaves every other character unchanged. It is deterministic across
//! environments and is used for comparison only, never to rewrite a line.

use vstd::prelude::*;
use vstd::string::StrSliceExecFns;

verus! {

/// `c` folded to lowercase: ASCII uppercase letters map to lowercase, all
/// other characters are unchanged.
pub open spec fn fold_char(c: char) -> char {
    if 'A' <= c && c <= 'Z' {
        ((c as u32) + 32) as char
    } else {
        c
    }
}

/// `s` folded to lowercase, character by character.
pub open spec fn fold_case(s: Seq<char>) -> Seq<char> {
    s.map_values(|c: char| fold_char(c))
}

/// `q` occurs in `t` as a contiguous substring.
pub open spec fn is_substring_of(q: Seq<char>, t: Seq<char>) -> bool {
    exists|i: int| 0 <= i && i + q.len() <= t.len() && #[trigger] t.subrange(i, i + q.len()) == q
}

/// Any contiguous piece of `t` occurs in `t` as a substring.
pub proof fn lemma_subrange_is_substring(t: Seq<char>, a: int, b: int)
    requires
        0 <= a <= b <= t.len(),
    ensures
        is_substring_of(t.subrange(a, b), t),
{
    let q = t.subrange(a, b);
    assert(t.subrange(a, a + q.len()) =~= q);
}

/// Substring occurrence is transitive: if `q` occurs in `mid` and `mid`
/// occurs in `t`, then `q` occurs in `t`.
pub proof fn lemma_substring_transitive(q: Seq<char>, mid: Seq<char>, t: Seq<char>)
    requires
        is_substring_of(q, mid),
        is_substring_of(mid, t),
    ensures
        is_substring_of(q, t),
{
    let i = choose|i: int|
        0 <= i && i + q.len() <= mid.len() && #[trigger] mid.subrange(i, i + q.len()) == q;
    let j = choose|j: int|
        0 <= j && j + mid.len() <= t.len() && #[trigger] t.subrange(j, j + mid.len()) == mid;
    assert(t.subrange(j + i, j + i + q.len()) =~= q) by {
        assert forall|k: int| 0 <= k < q.len() implies t.subrange(j + i, j + i + q.len())[k]
            == q[k] by {
            assert(t.subrange(j, j + mid.len())[i + k] == t[j + i + k]);
            assert(mid.subrange(i, i + q.len())[k] == mid[i + k]);
        }
    }
}

/// Case folding preserves substring occurrence: an exact occurrence of `q`
/// in `t` is also an occurrence of the folded `q` in the folded `t`, at the
/// same position.
pub proof fn lemma_fold_preserves_substring(q: Seq<char>, t: Seq<char>)
    requires
        is_substring_of(q, t),
    ensures
        is_substring_of(fold_case(q), fold_case(t)),
{
    let i = choose|i: int|
        0 <= i && i + q.len() <= t.len() && #[trigger] t.subrange(i, i + q.len()) == q;
    assert(fold_case(t).subrange(i, i + fold_case(q).len()) =~= fold_case(q)) by {
        assert forall|k: int| 0 <= k < q.len() implies fold_case(t).subrange(
            i,
            i + fold_case(q).len(),
        )[k] == fold_case(q)[k] by {
            assert(t.subrange(i, i + q.len())[k] == t[i + k]);
        }
    }
}

/// Executable case folding of one character.
fn fold_char_exec(c: char) -> (r: char)
    ensures
        r == fold_char(c),
{
    if 'A' <= c && c <= 'Z' {
        (c as u8 + 32) as char
    } else {
        c
    }
}

/// Compares `query` against `line` at position `at`, character by character,
/// folding both sides when `fold` is set.
fn match_at(query: &str, line: &str, at: usize, fold: bool, qn: usize, ln: usize) -> (r: bool)
    requires
        qn == query@.len(),
        ln == line@.len(),
        at + qn <= ln,
    ensures
        !fold ==> r == (line@.subrange(at as int, at + qn) == query@),
        fold ==> r == (fold_case(line@).subrange(at as int, at + qn) == fold_case(query@)),
    decreases qn,
{
    let ghost lv = if fold {
        fold_case(line@)
    } else {
        line@
    };
    let ghost qv = if fold {
        fold_case(query@)
    } else {
        query@
    };
    let mut j: usize = 0;
    while j < qn
        invariant
            qn == query@.len(),
            ln == line@.len(),
            at + qn <= ln,
            j <= qn,
            lv.len() == ln,
            qv.len() == qn,
            lv == (if fold {
                fold_case(line@)
            } else {
                line@
            }),
            qv == (if fold {
                fold_case(query@)
            } else {
                query@
            }),
            forall|k: int| 0 <= k < j ==> lv[at + k] == qv[k],
        decreases qn - j,
    {
        let mut lc = line.get_char(at + j);
        let mut qc = query.get_char(j);
        if fold {
            lc = fold_char_exec(lc);
            qc = fold_char_exec(qc);
        }
        if lc != qc {
            proof {
                assert(lv[at + j] != qv[j as int]);
                assert(lv.subrange(at as int, at + qn)[j as int] == lv[at + j]);
            }
            return false;
        }
        j += 1;
    }
    proof {
        assert(lv.subrange(at as int, at + qn) =~= qv);
    }
    true
}

/// Whether `query` occurs in `line` as a contiguous substring: exactly when
/// `fold` is unset, up to case folding when it is set.
pub fn contains_query(query: &str, line: &str, fold: bool) -> (r: bool)
    ensures
        !fold ==> r == is_substring_of(query@, line@),
        fold ==> r == is_substring_of(fold_case(query@), fold_case(line@)),
{
    let ghost lv = if fold {
        fold_case(line@)
    } else {
        line@
    };
    let ghost qv = if fold {
        fold_case(query@)
    } else {
        query@
    };
    let qn = query.unicode_len();
    let ln = line.unicode_len();
    if qn > ln {
        return false;
    }
    if qn == 0 {
        proof {
            assert(lv.subrange(0, 0 + qv.len() as int) =~= qv);
        }
        return true;
    }
    let mut i: usize = 0;
    while i <= ln - qn
        invariant
            qn == query@.len(),
            ln == line@.len(),
            1 <= qn <= ln,
            i <= ln - qn + 1,
            lv.len() == ln,
            qv.len() == qn,
            lv == (if fold {
                fold_case(line@)
            } else {
                line@
            }),
            qv == (if fold {
                fold_case(query@)
            } else {
                query@
            }),
            forall|k: int| 0 <= k < i ==> #[trigger] lv.subrange(k, k + qv.len()) != qv,
        decreases ln - i,
    {
        if match_at(query, line, i, fold, qn, ln) {
            proof {
                assert(0 <= i && i + qv.len() <= lv.len() && lv.subrange(
                    i as int,
                    i + qv.len(),
                ) == qv);
            }
            return true;
        }
        i += 1;
    }
    false
}

} // verus!
