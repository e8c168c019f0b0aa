use vstd::prelude::*;

verus! {

/// The sum of `f` over the elements of `s`.
pub open spec fn sum_of<T>(s: Seq<T>, f: spec_fn(T) -> int) -> int
    decreases s.len(),
{
    if s.len() == 0 { 0 } else { sum_of(s.drop_last(), f) + f(s.last()) }
}

/// The sum over a concatenation is the sum of the sums.
pub proof fn lemma_sum_add<T>(a: Seq<T>, b: Seq<T>, f: spec_fn(T) -> int)
    ensures sum_of(a + b, f) == sum_of(a, f) + sum_of(b, f),
    decreases b.len(),
{
    if b.len() == 0 {
        assert(a + b =~= a);
    } else {
        assert((a + b).drop_last() =~= a + b.drop_last());
        lemma_sum_add(a, b.drop_last(), f);
    }
}

/// The sum of a sequence split at `p`.
pub proof fn lemma_sum_split<T>(s: Seq<T>, p: int, f: spec_fn(T) -> int)
    requires 0 <= p <= s.len(),
    ensures sum_of(s, f) == sum_of(s.take(p), f) + sum_of(s.skip(p), f),
{
    assert(s =~= s.take(p) + s.skip(p));
    lemma_sum_add(s.take(p), s.skip(p), f);
}

/// Replacing an element changes the sum by the difference.
pub proof fn lemma_sum_update<T>(s: Seq<T>, p: int, x: T, f: spec_fn(T) -> int)
    requires 0 <= p < s.len(),
    ensures sum_of(s.update(p, x), f) == sum_of(s, f) - f(s[p]) + f(x),
{
    let t = s.update(p, x);
    lemma_sum_split(s, p, f);
    lemma_sum_split(t, p, f);
    assert(t.take(p) =~= s.take(p));
    assert(s.skip(p) =~= seq![s[p]] + s.skip(p + 1));
    assert(t.skip(p) =~= seq![x] + s.skip(p + 1));
    lemma_sum_add(seq![s[p]], s.skip(p + 1), f);
    lemma_sum_add(seq![x], s.skip(p + 1), f);
    assert(seq![s[p]].drop_last() =~= Seq::<T>::empty());
    assert(seq![x].drop_last() =~= Seq::<T>::empty());
}

/// Inserting an element adds it to the sum.
pub proof fn lemma_sum_insert<T>(s: Seq<T>, p: int, x: T, f: spec_fn(T) -> int)
    requires 0 <= p <= s.len(),
    ensures sum_of(s.insert(p, x), f) == sum_of(s, f) + f(x),
{
    let t = s.insert(p, x);
    lemma_sum_split(s, p, f);
    assert(t =~= s.take(p) + (seq![x] + s.skip(p)));
    lemma_sum_add(s.take(p), seq![x] + s.skip(p), f);
    lemma_sum_add(seq![x], s.skip(p), f);
    assert(seq![x].drop_last() =~= Seq::<T>::empty());
    assert(sum_of(Seq::<T>::empty(), f) == 0);
    assert(sum_of(seq![x], f) == f(x));
    assert(sum_of(t, f) == sum_of(s.take(p), f) + sum_of(seq![x] + s.skip(p), f));
}

/// Removing an element takes it from the sum.
pub proof fn lemma_sum_remove<T>(s: Seq<T>, p: int, f: spec_fn(T) -> int)
    requires 0 <= p < s.len(),
    ensures sum_of(s.remove(p), f) == sum_of(s, f) - f(s[p]),
{
    assert(s.remove(p).insert(p, s[p]) =~= s);
    lemma_sum_insert(s.remove(p), p, s[p], f);
}

/// A sum of zeros is zero.
pub proof fn lemma_sum_zero<T>(s: Seq<T>, f: spec_fn(T) -> int)
    requires forall|i: int| 0 <= i < s.len() ==> f(#[trigger] s[i]) == 0,
    ensures sum_of(s, f) == 0,
    decreases s.len(),
{
    if s.len() > 0 {
        assert forall|i: int| 0 <= i < s.drop_last().len() implies f(#[trigger] s.drop_last()[i]) == 0 by {
            assert(s.drop_last()[i] == s[i]);
        }
        lemma_sum_zero(s.drop_last(), f);
        assert(f(s[s.len() - 1]) == 0);
    }
}

/// A sum of values that are never negative is not negative.
pub proof fn lemma_sum_nonneg<T>(s: Seq<T>, f: spec_fn(T) -> int)
    requires forall|i: int| 0 <= i < s.len() ==> f(#[trigger] s[i]) >= 0,
    ensures sum_of(s, f) >= 0,
    decreases s.len(),
{
    if s.len() > 0 {
        assert forall|i: int| 0 <= i < s.drop_last().len() implies f(#[trigger] s.drop_last()[i]) >= 0 by {
            assert(s.drop_last()[i] == s[i]);
        }
        lemma_sum_nonneg(s.drop_last(), f);
    }
}

} // verus!
