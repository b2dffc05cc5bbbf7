//! Matching strategies: pure scoring of a query against a candidate name.
//!
//! Two interchangeable strategies feed the session:
//! - fuzzy ordered-subsequence scoring (an outside scorer, trusted at its
//!   boundary), and
//! - case-insensitive literal containment with a binary rank.

use vstd::prelude::*;
use vstd::string::StrSliceExecFns;
use fuzzy_matcher::FuzzyMatcher;
use fuzzy_matcher::skim::SkimMatcherV2;
use crate::Strategy;

verus! {

/// Case folding used by both strategies: ASCII upper-case letters fold to
/// lower case; every other character stands for its own code point.
pub open spec fn ascii_fold(c: char) -> u32 {
    if 65 <= c as u32 && c as u32 <= 90 {
        (c as u32 + 32) as u32
    } else {
        c as u32
    }
}

/// A whole text, case-folded to code points.
pub open spec fn fold_seq(s: Seq<char>) -> Seq<u32> {
    s.map(|i: int, c: char| ascii_fold(c))
}

/// `q` occurs in `t` in order, not necessarily contiguously.
pub open spec fn is_subseq(q: Seq<u32>, t: Seq<u32>) -> bool
    decreases t.len(),
{
    if q.len() == 0 {
        true
    } else if t.len() == 0 {
        false
    } else if q[0] == t[0] {
        is_subseq(q.drop_first(), t.drop_first())
    } else {
        is_subseq(q, t.drop_first())
    }
}

/// What the fuzzy scorer returns for a query and a name: a function of the
/// two texts alone.
pub uninterp spec fn skim_score(query: Seq<char>, name: Seq<char>) -> Option<i64>;

/// Relies on `fuzzy_matcher::skim::SkimMatcherV2::fuzzy_match`, built with
/// `ignore_case`: the score depends on the two texts alone; it is `Some`
/// exactly when the ASCII-case-folded query is an ordered subsequence of the
/// ASCII-case-folded name (its `cheap_matches` pre-pass), and an empty query
/// scores `Some(0)` outright.
#[verifier::external_body]
fn skim_fuzzy_match(query: &Vec<char>, name: &str) -> (r: Option<i64>)
    ensures
        r == skim_score(query@, name@),
        (r is Some) <==> is_subseq(fold_seq(query@), fold_seq(name@)),
        query@.len() == 0 ==> r == Some(0i64),
{
    let matcher = SkimMatcherV2::default().ignore_case();
    let pattern: String = query.iter().collect();
    matcher.fuzzy_match(name, &pattern)
}

/// Fuzzy strategy: ordered-subsequence scoring of `query` against `name`,
/// case-insensitive; `None` exactly when the query's characters cannot be
/// found in `name` in order.
pub fn fuzzy_score(query: &Vec<char>, name: &str) -> (r: Option<i64>)
    ensures
        r == skim_score(query@, name@),
        (r is Some) <==> is_subseq(fold_seq(query@), fold_seq(name@)),
        query@.len() == 0 ==> r == Some(0i64),
{
    skim_fuzzy_match(query, name)
}

/// A character the literal strategy treats as a pattern metacharacter.
pub open spec fn is_meta(c: char) -> bool {
    ||| c == '.'
    ||| c == '*'
    ||| c == '+'
    ||| c == '?'
    ||| c == '('
    ||| c == ')'
    ||| c == '['
    ||| c == ']'
    ||| c == '{'
    ||| c == '}'
    ||| c == '|'
    ||| c == '^'
    ||| c == '$'
    ||| c == '\\'
}

/// Some character of `q` is a pattern metacharacter.
pub open spec fn has_meta(q: Seq<char>) -> bool {
    exists|k: int| 0 <= k < q.len() && is_meta(q[k])
}

/// `q` occurs in `name` starting at position `i`, up to case folding.
pub open spec fn folded_match_at(q: Seq<char>, name: Seq<char>, i: int) -> bool {
    &&& 0 <= i
    &&& i + q.len() <= name.len()
    &&& forall|j: int| 0 <= j < q.len() ==> ascii_fold(name[i + j]) == ascii_fold(q[j])
}

/// `name` contains `q` as a contiguous run, up to case folding.
pub open spec fn contains_ci(q: Seq<char>, name: Seq<char>) -> bool {
    exists|i: int| folded_match_at(q, name, i)
}

/// Literal strategy: a query free of metacharacters matches every name that
/// contains it case-insensitively, always at the same rank; a query holding
/// a metacharacter matches nothing.
pub open spec fn literal_score_spec(q: Seq<char>, name: Seq<char>) -> Option<i64> {
    if has_meta(q) {
        None
    } else if contains_ci(q, name) {
        Some(0i64)
    } else {
        None
    }
}

/// Law: for a query without pattern metacharacters, the literal strategy's
/// match set is exactly the set of names that contain the query
/// case-insensitively.
pub proof fn lemma_literal_matches_containment(q: Seq<char>, name: Seq<char>)
    requires
        !has_meta(q),
    ensures
        (literal_score_spec(q, name) is Some) <==> contains_ci(q, name),
{
}

fn chars_fold_eq(a: char, b: char) -> (r: bool)
    ensures
        r == (ascii_fold(a) == ascii_fold(b)),
{
    let ua = a as u32;
    let ub = b as u32;
    let fa: u32 = if 65 <= ua && ua <= 90 { ua + 32 } else { ua };
    let fb: u32 = if 65 <= ub && ub <= 90 { ub + 32 } else { ub };
    fa == fb
}

fn char_is_meta(c: char) -> (r: bool)
    ensures
        r == is_meta(c),
{
    c == '.' || c == '*' || c == '+' || c == '?' || c == '(' || c == ')' || c == '[' || c == ']'
        || c == '{' || c == '}' || c == '|' || c == '^' || c == '$' || c == '\\'
}

/// The characters of `s`, in order.
pub fn chars_of(s: &str) -> (r: Vec<char>)
    ensures
        r@ == s@,
{
    let n = s.unicode_len();
    let mut v: Vec<char> = Vec::new();
    let mut i: usize = 0;
    while i < n
        invariant
            i <= n,
            n == s@.len(),
            v@ == s@.subrange(0, i as int),
        decreases n - i,
    {
        let c = s.get_char(i);
        v.push(c);
        proof {
            assert(v@ =~= s@.subrange(0, i + 1));
        }
        i += 1;
    }
    proof {
        assert(s@.subrange(0, n as int) =~= s@);
    }
    v
}

/// Literal strategy, executable: binary rank, `None` on a metacharacter or
/// when `name` does not contain `query` case-insensitively.
pub fn literal_score(query: &Vec<char>, name: &Vec<char>) -> (r: Option<i64>)
    ensures
        r == literal_score_spec(query@, name@),
{
    let qn = query.len();
    let nn = name.len();
    let mut k: usize = 0;
    while k < qn
        invariant
            k <= qn,
            qn == query@.len(),
            forall|t: int| 0 <= t < k ==> !is_meta(query@[t]),
        decreases qn - k,
    {
        if char_is_meta(query[k]) {
            return None;
        }
        k += 1;
    }
    assert(!has_meta(query@));
    if qn > nn {
        assert(!contains_ci(query@, name@));
        return None;
    }
    let mut i: usize = 0;
    while i <= nn - qn
        invariant
            0 <= i <= nn - qn + 1,
            qn <= nn,
            qn == query@.len(),
            nn == name@.len(),
            forall|p: int| 0 <= p < i ==> !folded_match_at(query@, name@, p),
            !has_meta(query@),
        decreases nn + 1 - qn - i,
    {
        let mut j: usize = 0;
        let mut ok = true;
        while j < qn && ok
            invariant
                0 <= j <= qn,
                i + qn <= nn,
                qn == query@.len(),
                nn == name@.len(),
                ok ==> forall|t: int| 0 <= t < j ==> ascii_fold(name@[i + t]) == ascii_fold(
                    query@[t],
                ),
                !ok ==> !folded_match_at(query@, name@, i as int),
            decreases qn - j + (if ok { 1int } else { 0int }),
        {
            if chars_fold_eq(name[i + j], query[j]) {
                j += 1;
            } else {
                proof {
                    assert(ascii_fold(name@[i + j]) != ascii_fold(query@[j as int]));
                }
                ok = false;
            }
        }
        if ok {
            assert(folded_match_at(query@, name@, i as int));
            assert(contains_ci(query@, name@));
            return Some(0i64);
        }
        i += 1;
    }
    assert(!contains_ci(query@, name@)) by {
        assert forall|p: int| !folded_match_at(query@, name@, p) by {
            if 0 <= p && p + query@.len() <= name@.len() {
                assert(p < i);
            }
        }
    }
    None
}

/// What a strategy scores: the seam the session ranks through.
pub open spec fn score_spec(strategy: Strategy, q: Seq<char>, name: Seq<char>) -> Option<i64> {
    match strategy {
        Strategy::Fuzzy => skim_score(q, name),
        Strategy::Literal => literal_score_spec(q, name),
    }
}

/// Score `query` against `name` under the chosen strategy.
pub fn score(strategy: Strategy, query: &Vec<char>, name: &str) -> (r: Option<i64>)
    ensures
        r == score_spec(strategy, query@, name@),
{
    match strategy {
        Strategy::Fuzzy => fuzzy_score(query, name),
        Strategy::Literal => {
            let name_chars = chars_of(name);
            literal_score(query, &name_chars)
        },
    }
}

} // verus!
