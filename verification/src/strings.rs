//! Order and decomposition of file names.
//!
//! Strings are modelled as their character sequences.  [`lex_lt`] is the
//! strict lexicographic order by code point, which is also the order in which
//! `String`s sort, since UTF-8 byte order agrees with code point order.
//! [`stem_of`] and [`ext_of`] split a file name at its last `'.'`.

use vstd::prelude::*;
use vstd::string::*;

verus! {

/// Strict lexicographic order on character sequences, by code point.
pub open spec fn lex_lt(a: Seq<char>, b: Seq<char>) -> bool
    decreases a.len(),
{
    if b.len() == 0 {
        false
    } else if a.len() == 0 {
        true
    } else if a[0] != b[0] {
        (a[0] as u32) < (b[0] as u32)
    } else {
        lex_lt(a.skip(1), b.skip(1))
    }
}

/// `lex_lt` is asymmetric, and two sequences that neither orders are equal:
/// of `lex_lt(a, b)`, `lex_lt(b, a)` and `a == b`, exactly one holds.
pub proof fn lemma_lex_trichotomy(a: Seq<char>, b: Seq<char>)
    ensures
        lex_lt(a, b) ==> !lex_lt(b, a),
        !lex_lt(a, b) && !lex_lt(b, a) ==> a == b,
    decreases a.len(),
{
    if a.len() == 0 || b.len() == 0 {
        if a.len() == 0 && b.len() == 0 {
            assert(a =~= b);
        }
    } else {
        lemma_lex_trichotomy(a.skip(1), b.skip(1));
        if a[0] != b[0] && !lex_lt(a, b) && !lex_lt(b, a) {
            assert(a[0] as u32 == b[0] as u32);
            vstd::utf8::char_u32_cast(a[0], a[0] as u32);
            vstd::utf8::char_u32_cast(b[0], b[0] as u32);
        }
        if a[0] == b[0] && !lex_lt(a, b) && !lex_lt(b, a) {
            assert(a.skip(1) == b.skip(1));
            assert forall|i: int| 0 <= i < a.len() implies a[i] == b[i] by {
                if i > 0 {
                    assert(a[i] == a.skip(1)[i - 1]);
                    assert(b[i] == b.skip(1)[i - 1]);
                }
            }
            assert(a =~= b);
        }
    }
}

/// `lex_lt` is transitive.
pub proof fn lemma_lex_trans(a: Seq<char>, b: Seq<char>, c: Seq<char>)
    requires
        lex_lt(a, b),
        lex_lt(b, c),
    ensures
        lex_lt(a, c),
    decreases a.len(),
{
    if b.len() == 0 || c.len() == 0 {
        // one of the premises is false
    } else if a.len() == 0 {
        // lex_lt(a, c) holds since c is non-empty
    } else {
        if a[0] == b[0] && b[0] == c[0] {
            lemma_lex_trans(a.skip(1), b.skip(1), c.skip(1));
        }
    }
}

/// The index of the last `'.'` in `s`, or `-1` if `s` has none.
pub open spec fn last_dot(s: Seq<char>) -> int
    decreases s.len(),
{
    if s.len() == 0 {
        -1
    } else if s[s.len() - 1] == '.' {
        s.len() - 1
    } else {
        last_dot(s.take(s.len() - 1))
    }
}

/// The file name without the suffix that starts at its last `'.'`;
/// the whole name when it has no `'.'`.
pub open spec fn stem_of(s: Seq<char>) -> Seq<char> {
    if last_dot(s) >= 0 {
        s.take(last_dot(s))
    } else {
        s
    }
}

/// The substring after the last `'.'` of the file name;
/// empty when it has no `'.'`.
pub open spec fn ext_of(s: Seq<char>) -> Seq<char> {
    if last_dot(s) >= 0 {
        s.skip(last_dot(s) + 1)
    } else {
        Seq::empty()
    }
}

/// `last_dot` is what its name says: the position of the last `'.'` when the
/// sequence has one, and `-1` otherwise.
pub proof fn lemma_last_dot(s: Seq<char>)
    ensures
        last_dot(s) == -1 || 0 <= last_dot(s) < s.len(),
        last_dot(s) >= 0 ==> s[last_dot(s)] == '.',
        forall|i: int| last_dot(s) < i < s.len() ==> s[i] != '.',
    decreases s.len(),
{
    if s.len() > 0 && s[s.len() - 1] != '.' {
        let t = s.take(s.len() - 1);
        lemma_last_dot(t);
        assert forall|i: int| last_dot(s) < i < s.len() implies s[i] != '.' by {
            if i < s.len() - 1 {
                assert(s[i] == t[i]);
            }
        }
    }
}

/// Splits a file name into its stem and its extension.
pub fn split_name(file_name: &str) -> (r: (String, String))
    ensures
        r.0@ == stem_of(file_name@),
        r.1@ == ext_of(file_name@),
{
    let n = file_name.unicode_len();
    let mut k: usize = n;
    proof {
        assert(file_name@.take(n as int) =~= file_name@);
    }
    loop
        invariant
            k <= n,
            n == file_name@.len(),
            last_dot(file_name@) == last_dot(file_name@.take(k as int)),
            forall|i: int| k <= i < n ==> file_name@[i] != '.',
        decreases k,
    {
        if k == 0 {
            proof {
                assert(file_name@.take(0) =~= Seq::<char>::empty());
                assert(last_dot(file_name@) == -1);
            }
            return (file_name.to_owned(), String::new());
        }
        let c = file_name.get_char(k - 1);
        if c == '.' {
            proof {
                assert(file_name@.take(k as int)[k - 1] == '.');
                assert(last_dot(file_name@.take(k as int)) == k - 1);
                assert(stem_of(file_name@) == file_name@.take(k - 1));
                assert(ext_of(file_name@) =~= file_name@.subrange(k as int, n as int));
            }
            let stem = file_name.substring_char(0, k - 1);
            let ext = file_name.substring_char(k, n);
            return (stem.to_owned(), ext.to_owned());
        }
        proof {
            let t = file_name@.take(k as int);
            assert(t[k - 1] == file_name@[k - 1]);
            assert(t.take(k - 1) =~= file_name@.take(k - 1));
            assert(last_dot(t) == last_dot(file_name@.take(k - 1)));
        }
        k = k - 1;
    }
}

/// Whether `a` comes strictly before `b` in lexicographic order.
pub fn str_lt(a: &str, b: &str) -> (r: bool)
    ensures
        r == lex_lt(a@, b@),
{
    let alen = a.unicode_len();
    let blen = b.unicode_len();
    let mut i: usize = 0;
    proof {
        assert(a@.skip(0) =~= a@);
        assert(b@.skip(0) =~= b@);
    }
    loop
        invariant
            i <= alen,
            i <= blen,
            alen == a@.len(),
            blen == b@.len(),
            lex_lt(a@, b@) == lex_lt(a@.skip(i as int), b@.skip(i as int)),
        decreases alen - i,
    {
        proof {
            assert(a@.skip(i as int).len() == alen - i);
            assert(b@.skip(i as int).len() == blen - i);
        }
        if i == blen {
            return false;
        }
        if i == alen {
            return true;
        }
        let ca = a.get_char(i);
        let cb = b.get_char(i);
        proof {
            assert(a@.skip(i as int)[0] == a@[i as int]);
            assert(b@.skip(i as int)[0] == b@[i as int]);
        }
        if ca as u32 != cb as u32 {
            proof {
                if ca == cb {
                    assert(ca as u32 == cb as u32);
                }
            }
            return (ca as u32) < (cb as u32);
        }
        proof {
            assert(ca == cb) by {
                vstd::utf8::char_u32_cast(ca, ca as u32);
                vstd::utf8::char_u32_cast(cb, cb as u32);
            }
            assert(a@.skip(i as int).skip(1) =~= a@.skip(i + 1));
            assert(b@.skip(i as int).skip(1) =~= b@.skip(i + 1));
        }
        i = i + 1;
    }
}

/// Whether `a` and `b` are the same string.
pub fn str_eq(a: &str, b: &str) -> (r: bool)
    ensures
        r == (a@ == b@),
{
    let alen = a.unicode_len();
    let blen = b.unicode_len();
    if alen != blen {
        proof {
            if a@ == b@ {
                assert(a@.len() == b@.len());
            }
        }
        return false;
    }
    let mut i: usize = 0;
    while i < alen
        invariant
            i <= alen,
            alen == a@.len(),
            alen == b@.len(),
            forall|j: int| 0 <= j < i ==> a@[j] == b@[j],
        decreases alen - i,
    {
        let ca = a.get_char(i);
        let cb = b.get_char(i);
        if ca as u32 != cb as u32 {
            proof {
                if a@ == b@ {
                    assert(a@[i as int] == b@[i as int]);
                }
            }
            return false;
        }
        proof {
            assert(ca == cb) by {
                vstd::utf8::char_u32_cast(ca, ca as u32);
                vstd::utf8::char_u32_cast(cb, cb as u32);
            }
        }
        i = i + 1;
    }
    proof {
        assert(a@ =~= b@);
    }
    true
}

} // verus!
