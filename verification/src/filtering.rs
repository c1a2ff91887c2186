//! Case-insensitive pattern filtering of the key list.
//!
//! A pattern is read as a case-insensitive regular expression and matched
//! anywhere within each key.  A pattern that does not compile keeps nothing:
//! while a user is still typing, a transiently malformed pattern must show
//! an empty result, never raise.

use vstd::prelude::*;

use crate::seqs::{lemma_filter_all_true, lemma_filter_elem_source, lemma_filter_empty,
    lemma_filter_push};

verus! {

/// Whether the pattern compiles as a case-insensitive regular expression.
pub uninterp spec fn regex_ci_valid(pattern: Seq<char>) -> bool;

/// Whether the case-insensitive regular expression of `pattern` matches
/// somewhere within `text`.
pub uninterp spec fn regex_ci_match(pattern: Seq<char>, text: Seq<char>) -> bool;

/// The two-character pattern `.*`, which matches any text.
pub open spec fn dot_star() -> Seq<char> {
    seq!['.', '*']
}

/// Relies on `regex::RegexBuilder::build` with `case_insensitive(true)`, and
/// on `regex::Regex::is_match`: whether a pattern compiles, and whether its
/// regular expression then matches somewhere within the text, are functions
/// of the pattern and the text alone.  `None` reports a pattern that does
/// not compile.  The regex documentation promises that `.*` compiles and
/// matches in any text, the empty text included.
#[verifier::external_body]
fn regex_ci_is_match(pattern: &str, text: &str) -> (r: Option<bool>)
    ensures
        r is Some <==> regex_ci_valid(pattern@),
        r is Some ==> r == Some(regex_ci_match(pattern@, text@)),
        pattern@ == dot_star() ==> r == Some(true),
{
    match regex::RegexBuilder::new(pattern).case_insensitive(true).build() {
        Ok(re) => Some(re.is_match(text)),
        Err(_) => None,
    }
}

/// The test a key must pass to stay: the pattern matches somewhere in it.
pub open spec fn match_pred(pattern: Seq<char>) -> spec_fn(String) -> bool {
    |k: String| regex_ci_match(pattern, k@)
}

/// What filtering yields: the keys the pattern matches, in their given
/// order — or nothing at all when the pattern does not compile.
pub open spec fn filter_spec(keys: Seq<String>, pattern: Seq<char>) -> Seq<String> {
    if regex_ci_valid(pattern) {
        keys.filter(match_pred(pattern))
    } else {
        Seq::empty()
    }
}

/// Keeps the keys in which the pattern, read as a case-insensitive regular
/// expression, matches somewhere, preserving their order; a pattern that
/// does not compile keeps nothing.  The pattern `.*` keeps every key.
pub fn filter_keys(keys: &Vec<String>, pattern: &str) -> (r: Vec<String>)
    ensures
        r@ == filter_spec(keys@, pattern@),
        pattern@ == dot_star() ==> r@ == keys@,
{
    let mut out: Vec<String> = Vec::new();
    let n: usize = keys.len();
    proof {
        assert(keys@.take(0) =~= Seq::<String>::empty());
        lemma_filter_empty(keys@.take(0), match_pred(pattern@));
    }
    let mut i: usize = 0;
    while i < n
        invariant
            i <= n,
            n == keys@.len(),
            i > 0 ==> regex_ci_valid(pattern@),
            out@ == keys@.take(i as int).filter(match_pred(pattern@)),
            pattern@ == dot_star() ==> out@ == keys@.take(i as int),
        decreases n - i,
    {
        let key = &keys[i];
        match regex_ci_is_match(pattern, key.as_str()) {
            Some(matched) => {
                proof {
                    lemma_filter_push(keys@.take(i as int), keys@[i as int], match_pred(pattern@));
                    assert(keys@.take(i + 1) =~= keys@.take(i as int).push(keys@[i as int]));
                }
                if matched {
                    out.push(key.clone());
                }
            },
            None => {
                proof {
                    assert(!regex_ci_valid(pattern@));
                }
                return Vec::new();
            },
        }
        i = i + 1;
    }
    proof {
        assert(keys@.take(n as int) =~= keys@);
        if n == 0 {
            lemma_filter_empty(keys@, match_pred(pattern@));
        }
    }
    out
}

/// Filtering is idempotent: filtering an already filtered key list again
/// with the same pattern changes nothing.
pub proof fn lemma_filter_idempotent(keys: Seq<String>, pattern: Seq<char>)
    ensures
        filter_spec(filter_spec(keys, pattern), pattern) == filter_spec(keys, pattern),
{
    if regex_ci_valid(pattern) {
        let fs = keys.filter(match_pred(pattern));
        assert forall|i: int| 0 <= i < fs.len() implies match_pred(pattern)(#[trigger] fs[i]) by {
            lemma_filter_elem_source(keys, match_pred(pattern), i);
        }
        lemma_filter_all_true(fs, match_pred(pattern));
    }
}

} // verus!
