//! Searching sequences front to back.
use vstd::prelude::*;

verus! {

/// Index of the first element of `s` that satisfies `p`, or `s.len()` when
/// none does.
pub open spec fn first_index<T>(s: Seq<T>, p: spec_fn(T) -> bool) -> int
    decreases s.len(),
{
    if s.len() == 0 {
        0
    } else if p(s[0]) {
        0
    } else {
        1 + first_index(s.drop_first(), p)
    }
}

pub proof fn lemma_first_index<T>(s: Seq<T>, p: spec_fn(T) -> bool)
    ensures
        0 <= first_index(s, p) <= s.len(),
        first_index(s, p) < s.len() ==> p(s[first_index(s, p)]),
        forall|j: int| 0 <= j < first_index(s, p) ==> !p(#[trigger] s[j]),
    decreases s.len(),
{
    if s.len() > 0 && !p(s[0]) {
        lemma_first_index(s.drop_first(), p);
        assert forall|j: int| 0 <= j < first_index(s, p) implies !p(#[trigger] s[j]) by {
            if j > 0 {
                assert(s[j] == s.drop_first()[j - 1]);
            }
        }
    }
}

/// `i` is the first index of `s` that satisfies `p` when every earlier element
/// fails it and `s[i]` satisfies it (or `i` is the length).
pub proof fn lemma_first_index_is<T>(s: Seq<T>, p: spec_fn(T) -> bool, i: int)
    requires
        0 <= i <= s.len(),
        i < s.len() ==> p(s[i]),
        forall|j: int| 0 <= j < i ==> !p(#[trigger] s[j]),
    ensures
        first_index(s, p) == i,
    decreases s.len(),
{
    if s.len() > 0 && i > 0 {
        assert forall|j: int| 0 <= j < i - 1 implies !p(#[trigger] s.drop_first()[j]) by {
            assert(s.drop_first()[j] == s[j + 1]);
        }
        lemma_first_index_is(s.drop_first(), p, i - 1);
    }
}

/// The elements of `s` that satisfy `p`, in their order.
pub open spec fn keep_where<T>(s: Seq<T>, p: spec_fn(T) -> bool) -> Seq<T>
    decreases s.len(),
{
    if s.len() == 0 {
        Seq::empty()
    } else {
        let rest = keep_where(s.drop_first(), p);
        if p(s[0]) {
            seq![s[0]] + rest
        } else {
            rest
        }
    }
}

/// What `keep_where` keeps: elements of `s` that satisfy `p`, and each of
/// them.
pub proof fn lemma_keep_where<T>(s: Seq<T>, p: spec_fn(T) -> bool)
    ensures
        keep_where(s, p).len() <= s.len(),
        forall|k: int| 0 <= k < keep_where(s, p).len() ==> p(#[trigger] keep_where(s, p)[k]),
        forall|k: int| 0 <= k < keep_where(s, p).len() ==> s.contains(#[trigger] keep_where(s, p)[k]),
        forall|j: int| 0 <= j < s.len() && p(#[trigger] s[j]) ==> keep_where(s, p).contains(s[j]),
    decreases s.len(),
{
    if s.len() > 0 {
        let t = s.drop_first();
        lemma_keep_where(t, p);
        let rest = keep_where(t, p);
        let r = keep_where(s, p);
        assert forall|k: int| 0 <= k < rest.len() implies s.contains(#[trigger] rest[k]) by {
            assert(t.contains(rest[k]));
            let j = choose|j: int| 0 <= j < t.len() && t[j] == rest[k];
            assert(s[j + 1] == t[j]);
        }
        if p(s[0]) {
            assert(r == seq![s[0]] + rest);
            assert forall|k: int| 0 <= k < r.len() implies p(#[trigger] r[k]) && s.contains(r[k]) by {
                if k == 0 {
                    assert(r[0] == s[0]);
                } else {
                    assert(r[k] == rest[k - 1]);
                }
            }
            assert forall|j: int| 0 <= j < s.len() && p(#[trigger] s[j]) implies r.contains(s[j]) by {
                if j == 0 {
                    assert(r[0] == s[0]);
                } else {
                    assert(s[j] == t[j - 1]);
                    assert(rest.contains(t[j - 1]));
                    let k = choose|k: int| 0 <= k < rest.len() && rest[k] == t[j - 1];
                    assert(r[k + 1] == rest[k]);
                }
            }
        } else {
            assert(r == rest);
            assert forall|j: int| 0 <= j < s.len() && p(#[trigger] s[j]) implies r.contains(s[j]) by {
                assert(j != 0);
                assert(s[j] == t[j - 1]);
            }
        }
    }
}

/// When `f` tells the elements of `s` apart, it tells those that
/// `keep_where` keeps apart too.
pub proof fn lemma_keep_where_distinct<T, K>(s: Seq<T>, p: spec_fn(T) -> bool, f: spec_fn(T) -> K)
    requires
        forall|a: int, b: int| #![trigger s[a], s[b]] 0 <= a < b < s.len() ==> f(s[a]) != f(s[b]),
    ensures
        forall|a: int, b: int|
            #![trigger keep_where(s, p)[a], keep_where(s, p)[b]]
            0 <= a < b < keep_where(s, p).len() ==> f(keep_where(s, p)[a]) != f(keep_where(s, p)[b]),
    decreases s.len(),
{
    if s.len() > 0 {
        let t = s.drop_first();
        assert forall|a: int, b: int| #![trigger t[a], t[b]] 0 <= a < b < t.len() implies f(t[a]) != f(t[b]) by {
            assert(t[a] == s[a + 1]);
            assert(t[b] == s[b + 1]);
        }
        lemma_keep_where_distinct(t, p, f);
        lemma_keep_where(t, p);
        let rest = keep_where(t, p);
        let r = keep_where(s, p);
        if p(s[0]) {
            assert(r == seq![s[0]] + rest);
            assert forall|a: int, b: int| #![trigger r[a], r[b]] 0 <= a < b < r.len() implies f(r[a]) != f(r[b]) by {
                assert(r[b] == rest[b - 1]);
                if a == 0 {
                    assert(t.contains(rest[b - 1]));
                    let j = choose|j: int| 0 <= j < t.len() && t[j] == rest[b - 1];
                    assert(s[j + 1] == t[j]);
                    assert(r[0] == s[0]);
                } else {
                    assert(r[a] == rest[a - 1]);
                }
            }
        } else {
            assert(r == rest);
        }
    }
}

/// Keeping from a sequence with one more element at the end.
pub proof fn lemma_keep_where_push<T>(s: Seq<T>, x: T, p: spec_fn(T) -> bool)
    ensures
        p(x) ==> keep_where(s.push(x), p) == keep_where(s, p).push(x),
        !p(x) ==> keep_where(s.push(x), p) == keep_where(s, p),
    decreases s.len(),
{
    let sx = s.push(x);
    if s.len() == 0 {
        assert(sx.drop_first() =~= Seq::<T>::empty());
        assert(keep_where(sx.drop_first(), p) =~= Seq::<T>::empty());
        assert(sx[0] == x);
        if p(x) {
            assert(keep_where(sx, p) =~= seq![x] + Seq::<T>::empty());
            assert(keep_where(sx, p) =~= keep_where(s, p).push(x));
        } else {
            assert(keep_where(sx, p) =~= keep_where(s, p));
        }
    } else {
        let t = s.drop_first();
        assert(sx.drop_first() =~= t.push(x));
        assert(sx[0] == s[0]);
        lemma_keep_where_push(t, x, p);
        if p(s[0]) {
            if p(x) {
                assert(keep_where(sx, p) =~= seq![s[0]] + keep_where(t, p).push(x));
                assert(seq![s[0]] + keep_where(t, p).push(x) =~= (seq![s[0]] + keep_where(t, p)).push(x));
            } else {
                assert(keep_where(sx, p) =~= seq![s[0]] + keep_where(t, p));
            }
        } else {
            if p(x) {
                assert(keep_where(sx, p) =~= keep_where(t, p).push(x));
            } else {
                assert(keep_where(sx, p) =~= keep_where(t, p));
            }
        }
    }
}

/// Keeping from a sequence whose every element satisfies `p` keeps it whole.
pub proof fn lemma_keep_where_all<T>(s: Seq<T>, p: spec_fn(T) -> bool)
    requires
        forall|k: int| 0 <= k < s.len() ==> p(#[trigger] s[k]),
    ensures
        keep_where(s, p) == s,
    decreases s.len(),
{
    if s.len() > 0 {
        assert forall|k: int| 0 <= k < s.drop_first().len() implies p(#[trigger] s.drop_first()[k]) by {
            assert(s.drop_first()[k] == s[k + 1]);
        }
        lemma_keep_where_all(s.drop_first(), p);
        assert(seq![s[0]] + s.drop_first() =~= s);
    }
}

} // verus!
