use vstd::prelude::*;

verus! {

/// Number of elements of `s` that satisfy `p`.
pub open spec fn count_where<T>(s: Seq<T>, p: spec_fn(T) -> bool) -> nat
    decreases s.len(),
{
    if s.len() == 0 {
        0
    } else {
        count_where(s.drop_last(), p) + if p(s.last()) {
            1nat
        } else {
            0nat
        }
    }
}

pub proof fn lemma_count_bound<T>(s: Seq<T>, p: spec_fn(T) -> bool)
    ensures
        count_where(s, p) <= s.len(),
    decreases s.len(),
{
    if s.len() > 0 {
        lemma_count_bound(s.drop_last(), p);
    }
}

/// Replacing one element changes the count by what the old and new element contribute.
pub proof fn lemma_count_update<T>(s: Seq<T>, i: int, v: T, p: spec_fn(T) -> bool)
    requires
        0 <= i < s.len(),
    ensures
        count_where(s.update(i, v), p) + (if p(s[i]) { 1int } else { 0int }) == count_where(s, p)
            + (if p(v) { 1int } else { 0int }),
    decreases s.len(),
{
    let u = s.update(i, v);
    if i == s.len() - 1 {
        assert(u.drop_last() =~= s.drop_last());
    } else {
        lemma_count_update(s.drop_last(), i, v, p);
        assert(u.drop_last() =~= s.drop_last().update(i, v));
    }
}

/// When every element is counted, every element satisfies the predicate.
pub proof fn lemma_count_full<T>(s: Seq<T>, p: spec_fn(T) -> bool, i: int)
    requires
        count_where(s, p) == s.len(),
        0 <= i < s.len(),
    ensures
        p(s[i]),
    decreases s.len(),
{
    lemma_count_bound(s.drop_last(), p);
    if i < s.len() - 1 {
        lemma_count_full(s.drop_last(), p, i);
    }
}

/// A sequence whose elements all fail the predicate counts zero.
pub proof fn lemma_count_none<T>(s: Seq<T>, p: spec_fn(T) -> bool)
    requires
        forall|i: int| 0 <= i < s.len() ==> !p(#[trigger] s[i]),
    ensures
        count_where(s, p) == 0,
    decreases s.len(),
{
    if s.len() > 0 {
        lemma_count_none(s.drop_last(), p);
    }
}

/// Counting over a sequence with one more element.
pub proof fn lemma_count_push<T>(s: Seq<T>, v: T, p: spec_fn(T) -> bool)
    ensures
        count_where(s.push(v), p) == count_where(s, p) + if p(v) { 1nat } else { 0nat },
{
    assert(s.push(v).drop_last() =~= s);
}

/// Two predicates that agree on every element give the same count.
pub proof fn lemma_count_same<T>(s: Seq<T>, t: Seq<T>, p: spec_fn(T) -> bool, q: spec_fn(T) -> bool)
    requires
        s.len() == t.len(),
        forall|i: int| 0 <= i < s.len() ==> p(#[trigger] s[i]) == q(t[i]),
    ensures
        count_where(s, p) == count_where(t, q),
    decreases s.len(),
{
    if s.len() > 0 {
        lemma_count_same(s.drop_last(), t.drop_last(), p, q);
    }
}

/// A sequence whose elements all satisfy the predicate counts its length.
pub proof fn lemma_count_all<T>(s: Seq<T>, p: spec_fn(T) -> bool)
    requires
        forall|i: int| 0 <= i < s.len() ==> p(#[trigger] s[i]),
    ensures
        count_where(s, p) == s.len(),
    decreases s.len(),
{
    if s.len() > 0 {
        lemma_count_all(s.drop_last(), p);
    }
}

} // verus!
