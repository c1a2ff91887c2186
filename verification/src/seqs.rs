//! Small general lemmas about sequence filtering.

use vstd::prelude::*;

verus! {

/// Filtering an empty sequence yields an empty sequence.
pub proof fn lemma_filter_empty<A>(s: Seq<A>, p: spec_fn(A) -> bool)
    requires
        s.len() == 0,
    ensures
        s.filter(p) == s,
{
    reveal(Seq::filter);
}

/// Filtering `s.push(x)` filters `s` and appends `x` exactly when `x`
/// satisfies the predicate.
pub proof fn lemma_filter_push<A>(s: Seq<A>, x: A, p: spec_fn(A) -> bool)
    ensures
        (s.push(x)).filter(p) == (if p(x) {
            s.filter(p).push(x)
        } else {
            s.filter(p)
        }),
{
    reveal(Seq::filter);
    assert(s.push(x).len() == s.len() + 1);
    assert(s.push(x).drop_last() =~= s);
    assert(s.push(x).last() == x);
}

/// A sequence whose elements all satisfy the predicate filters to itself.
pub proof fn lemma_filter_all_true<A>(s: Seq<A>, p: spec_fn(A) -> bool)
    requires
        forall|i: int| 0 <= i < s.len() ==> p(#[trigger] s[i]),
    ensures
        s.filter(p) == s,
    decreases s.len(),
{
    reveal(Seq::filter);
    if s.len() > 0 {
        let d = s.drop_last();
        assert forall|i: int| 0 <= i < d.len() implies p(d[i]) by {
            assert(d[i] == s[i]);
        }
        lemma_filter_all_true(d, p);
        assert(p(s.last()));
        assert(d.push(s.last()) =~= s);
    }
}

/// Every element of a filtered sequence is an element of the original at
/// some position, and satisfies the predicate.
pub proof fn lemma_filter_elem_source<A>(s: Seq<A>, p: spec_fn(A) -> bool, i: int)
    requires
        0 <= i < s.filter(p).len(),
    ensures
        p(s.filter(p)[i]),
        exists|j: int| 0 <= j < s.len() && s[j] == s.filter(p)[i],
    decreases s.len(),
{
    reveal(Seq::filter);
    if s.len() > 0 {
        let d = s.drop_last();
        if i < d.filter(p).len() {
            lemma_filter_elem_source(d, p, i);
            let j = choose|j: int| 0 <= j < d.len() && d[j] == d.filter(p)[i];
            assert(s[j] == s.filter(p)[i]);
        } else {
            assert(s.filter(p)[i] == s.last());
            assert(s[s.len() - 1] == s.filter(p)[i]);
        }
    }
}

} // verus!
