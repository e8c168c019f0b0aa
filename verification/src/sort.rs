use vstd::prelude::*;

verus! {

/// A sort key compared lexicographically.
pub type SortKey = (u64, u64, u64);

/// `a` orders at or before `b`.
pub open spec fn key_le(a: SortKey, b: SortKey) -> bool {
    a.0 < b.0 || (a.0 == b.0 && (a.1 < b.1 || (a.1 == b.1 && a.2 <= b.2)))
}

/// Position at which a stable insertion puts an element with key `k` into `s`: just after
/// the last element (scanning from the end) whose key is not greater than `k`.
pub open spec fn insert_pos<T>(s: Seq<(SortKey, T)>, k: SortKey) -> int
    decreases s.len(),
{
    if s.len() == 0 {
        0
    } else if key_le(s.last().0, k) {
        s.len() as int
    } else {
        insert_pos(s.drop_last(), k)
    }
}

/// Stable insertion of `x` into `s`.
pub open spec fn insert_sorted<T>(s: Seq<(SortKey, T)>, x: (SortKey, T)) -> Seq<(SortKey, T)> {
    s.insert(insert_pos(s, x.0), x)
}

/// Inserts the elements of `rest`, front to back, into `acc`.
pub open spec fn sort_from<T>(acc: Seq<(SortKey, T)>, rest: Seq<(SortKey, T)>) -> Seq<(SortKey, T)>
    decreases rest.len(),
{
    if rest.len() == 0 {
        acc
    } else {
        sort_from(insert_sorted(acc, rest[0]), rest.drop_first())
    }
}

/// The stable sort of `s` by key.
pub open spec fn sort_spec<T>(s: Seq<(SortKey, T)>) -> Seq<(SortKey, T)> {
    sort_from(Seq::empty(), s)
}

/// `s` is in non-decreasing key order.
pub open spec fn sorted_by_key<T>(s: Seq<(SortKey, T)>) -> bool {
    forall|i: int, j: int| 0 <= i < j < s.len() ==> key_le(#[trigger] s[i].0, #[trigger] s[j].0)
}

/// The elements of a keyed sequence without their keys.
pub open spec fn unkeyed<T>(s: Seq<(SortKey, T)>) -> Seq<T> {
    s.map_values(|p: (SortKey, T)| p.1)
}

/// Where a stable insertion puts key `k` into a sorted sequence: after every element whose
/// key is not greater, before every element whose key is greater.
proof fn lemma_insert_pos<T>(s: Seq<(SortKey, T)>, k: SortKey)
    requires sorted_by_key(s),
    ensures
        0 <= insert_pos(s, k) <= s.len(),
        forall|i: int| 0 <= i < insert_pos(s, k) ==> key_le(#[trigger] s[i].0, k),
        forall|i: int| insert_pos(s, k) <= i < s.len() ==> !key_le(#[trigger] s[i].0, k),
    decreases s.len(),
{
    if s.len() > 0 {
        let t = s.drop_last();
        assert(sorted_by_key(t)) by {
            assert forall|i: int, j: int| 0 <= i < j < t.len() implies key_le(#[trigger] t[i].0, #[trigger] t[j].0) by {
                assert(key_le(s[i].0, s[j].0));
            }
        }
        lemma_insert_pos(t, k);
        if key_le(s.last().0, k) {
            assert forall|i: int| 0 <= i < s.len() implies key_le(#[trigger] s[i].0, k) by {
                if i < s.len() - 1 { assert(key_le(s[i].0, s[s.len() - 1].0)); }
            }
        } else {
            assert forall|i: int| 0 <= i < insert_pos(s, k) implies key_le(#[trigger] s[i].0, k) by {
                assert(s[i] == t[i]);
            }
            assert forall|i: int| insert_pos(s, k) <= i < s.len() implies !key_le(#[trigger] s[i].0, k) by {
                if i < s.len() - 1 { assert(s[i] == t[i]); }
            }
        }
    }
}

/// A stable insertion keeps a sequence sorted and adds the element.
proof fn lemma_insert_sorted<T>(s: Seq<(SortKey, T)>, x: (SortKey, T))
    requires sorted_by_key(s),
    ensures
        sorted_by_key(insert_sorted(s, x)),
        insert_sorted(s, x).to_multiset() == s.to_multiset().insert(x),
{
    let p = insert_pos(s, x.0);
    lemma_insert_pos(s, x.0);
    let n = insert_sorted(s, x);
    assert forall|i: int, j: int| 0 <= i < j < n.len() implies key_le(#[trigger] n[i].0, #[trigger] n[j].0) by {
        if j < p {
            assert(n[i] == s[i] && n[j] == s[j]);
        } else if j == p {
            assert(n[i] == s[i]);
        } else if i == p {
            assert(n[j] == s[j - 1]);
        } else if i < p {
            assert(n[i] == s[i] && n[j] == s[j - 1]);
            assert(key_le(s[i].0, x.0));
        } else {
            assert(n[i] == s[i - 1] && n[j] == s[j - 1]);
        }
    }
    vstd::seq_lib::to_multiset_insert(s, p, x);
}

/// Inserting `rest` into a sorted `acc` gives a sorted sequence of the elements of both.
proof fn lemma_sort_from<T>(acc: Seq<(SortKey, T)>, rest: Seq<(SortKey, T)>)
    requires sorted_by_key(acc),
    ensures
        sorted_by_key(sort_from(acc, rest)),
        sort_from(acc, rest).to_multiset() == acc.to_multiset().add(rest.to_multiset()),
    decreases rest.len(),
{
    broadcast use vstd::multiset::group_multiset_axioms;
    if rest.len() == 0 {
        assert(rest.to_multiset() =~= vstd::multiset::Multiset::<(SortKey, T)>::empty()) by {
            broadcast use vstd::seq_lib::group_to_multiset_ensures;
        }
        assert(acc.to_multiset().add(rest.to_multiset()) =~= acc.to_multiset());
    } else {
        lemma_insert_sorted(acc, rest[0]);
        lemma_sort_from(insert_sorted(acc, rest[0]), rest.drop_first());
        assert(rest =~= seq![rest[0]] + rest.drop_first());
        vstd::seq_lib::lemma_multiset_commutative(seq![rest[0]], rest.drop_first());
        assert(seq![rest[0]].to_multiset() =~= vstd::multiset::Multiset::<(SortKey, T)>::empty().insert(rest[0])) by {
            broadcast use vstd::seq_lib::group_to_multiset_ensures;
            assert(seq![rest[0]] =~= Seq::<(SortKey, T)>::empty().push(rest[0]));
            assert(Seq::<(SortKey, T)>::empty().to_multiset() =~= vstd::multiset::Multiset::<(SortKey, T)>::empty());
        }
        assert(sort_from(acc, rest).to_multiset() =~= acc.to_multiset().add(rest.to_multiset()));
    }
}

/// Elements whose key is `k`.
pub open spec fn key_is<T>(k: SortKey) -> spec_fn((SortKey, T)) -> bool {
    |p: (SortKey, T)| p.0 == k
}

/// A stable insertion puts the element after every element of the same key.
proof fn lemma_insert_filter<T>(s: Seq<(SortKey, T)>, x: (SortKey, T), k: SortKey)
    requires sorted_by_key(s),
    ensures
        insert_sorted(s, x).filter(key_is(k)) == if x.0 == k { s.filter(key_is(k)).push(x) } else { s.filter(key_is(k)) },
{
    broadcast use vstd::seq::Seq::filter_distributes_over_add, vstd::seq::Seq::lemma_filter_push;
    let p = insert_pos(s, x.0);
    lemma_insert_pos(s, x.0);
    let a = s.take(p);
    let b = s.skip(p);
    assert(s =~= a + b);
    assert(insert_sorted(s, x) =~= a.push(x) + b);
    if x.0 == k {
        assert(b.filter(key_is(k)) =~= Seq::<(SortKey, T)>::empty()) by {
            reveal(Seq::filter);
            assert forall|i: int| 0 <= i < b.len() implies !key_is::<T>(k)(#[trigger] b[i]) by {
                assert(b[i] == s[p + i]);
                assert(!key_le(s[p + i].0, x.0));
            }
            lemma_filter_none(b, key_is(k));
        }
        assert(a.filter(key_is(k)) + b.filter(key_is(k)) =~= a.filter(key_is(k)));
        assert(s.filter(key_is(k)) == a.filter(key_is(k)) + b.filter(key_is(k)));
        assert(a.push(x).filter(key_is(k)) == a.filter(key_is(k)).push(x));
        assert(a.filter(key_is(k)).push(x) + Seq::<(SortKey, T)>::empty() =~= a.filter(key_is(k)).push(x));
    } else {
        assert(a.push(x).filter(key_is(k)) == a.filter(key_is(k)));
    }
}

/// Filtering out every element gives nothing.
proof fn lemma_filter_none<T>(s: Seq<T>, pred: spec_fn(T) -> bool)
    requires forall|i: int| 0 <= i < s.len() ==> !pred(#[trigger] s[i]),
    ensures s.filter(pred) =~= Seq::<T>::empty(),
    decreases s.len(),
{
    reveal(Seq::filter);
    if s.len() > 0 {
        assert forall|i: int| 0 <= i < s.drop_last().len() implies !pred(#[trigger] s.drop_last()[i]) by {
            assert(s.drop_last()[i] == s[i]);
        }
        lemma_filter_none(s.drop_last(), pred);
        assert(!pred(s[s.len() - 1]));
    }
}

/// Inserting `rest` stably into a sorted `acc` keeps, for every key, the elements of `acc`
/// before those of `rest`, each in its order.
proof fn lemma_sort_from_filter<T>(acc: Seq<(SortKey, T)>, rest: Seq<(SortKey, T)>, k: SortKey)
    requires sorted_by_key(acc),
    ensures sort_from(acc, rest).filter(key_is(k)) == acc.filter(key_is(k)) + rest.filter(key_is(k)),
    decreases rest.len(),
{
    broadcast use vstd::seq::Seq::filter_distributes_over_add, vstd::seq::Seq::lemma_filter_push;
    if rest.len() == 0 {
        assert(rest.filter(key_is(k)) =~= Seq::<(SortKey, T)>::empty()) by { reveal(Seq::filter); }
        assert(acc.filter(key_is(k)) + rest.filter(key_is(k)) =~= acc.filter(key_is(k)));
    } else {
        let x = rest[0];
        lemma_insert_sorted(acc, x);
        lemma_insert_filter(acc, x, k);
        lemma_sort_from_filter(insert_sorted(acc, x), rest.drop_first(), k);
        assert(rest =~= seq![x] + rest.drop_first());
        assert(seq![x] =~= Seq::<(SortKey, T)>::empty().push(x));
        assert(Seq::<(SortKey, T)>::empty().filter(key_is(k)) =~= Seq::<(SortKey, T)>::empty()) by { reveal(Seq::filter); }
        if x.0 == k {
            assert(seq![x].filter(key_is(k)) =~= seq![x]);
            assert(acc.filter(key_is(k)).push(x) + rest.drop_first().filter(key_is(k))
                =~= acc.filter(key_is(k)) + (seq![x] + rest.drop_first().filter(key_is(k))));
        } else {
            assert(seq![x].filter(key_is(k)) =~= Seq::<(SortKey, T)>::empty());
            assert(Seq::<(SortKey, T)>::empty() + rest.drop_first().filter(key_is(k)) =~= rest.drop_first().filter(key_is(k)));
        }
    }
}

/// Sorting is stable: the elements of each key come out in the order they went in.
pub proof fn lemma_sort_stable<T>(s: Seq<(SortKey, T)>, k: SortKey)
    ensures sort_spec(s).filter(key_is(k)) == s.filter(key_is(k)),
{
    lemma_sort_from_filter(Seq::empty(), s, k);
    assert(Seq::<(SortKey, T)>::empty().filter(key_is(k)) =~= Seq::<(SortKey, T)>::empty()) by { reveal(Seq::filter); }
    assert(Seq::<(SortKey, T)>::empty() + s.filter(key_is(k)) =~= s.filter(key_is(k)));
}

/// Sorting gives the same elements, in non-decreasing key order.
pub proof fn lemma_sort_sorted_permutation<T>(s: Seq<(SortKey, T)>)
    ensures
        sorted_by_key(sort_spec(s)),
        sort_spec(s).to_multiset() == s.to_multiset(),
{
    broadcast use vstd::multiset::group_multiset_axioms;
    lemma_sort_from(Seq::empty(), s);
    assert(Seq::<(SortKey, T)>::empty().to_multiset() =~= vstd::multiset::Multiset::<(SortKey, T)>::empty()) by {
        broadcast use vstd::seq_lib::group_to_multiset_ensures;
    }
    assert(Seq::<(SortKey, T)>::empty().to_multiset().add(s.to_multiset()) =~= s.to_multiset());
}

fn key_gt(a: SortKey, b: SortKey) -> (r: bool)
    ensures r == !key_le(a, b),
{
    a.0 > b.0 || (a.0 == b.0 && (a.1 > b.1 || (a.1 == b.1 && a.2 > b.2)))
}

/// Sorts `items` by key, keeping items with equal keys in their original order.
pub fn sort_keyed<T>(items: Vec<(SortKey, T)>) -> (out: Vec<(SortKey, T)>)
    ensures out@ == sort_spec(items@),
{
    let mut rest = items;
    let mut out: Vec<(SortKey, T)> = Vec::new();
    while rest.len() > 0
        invariant
            sort_from(out@, rest@) == sort_spec(items@),
        decreases rest@.len(),
    {
        let x = rest.remove(0);
        let mut p = out.len();
        proof { assert(out@.take(p as int) =~= out@); }
        while p > 0 && key_gt(out[p - 1].0, x.0)
            invariant
                0 <= p <= out@.len(),
                insert_pos(out@, x.0) == insert_pos(out@.take(p as int), x.0),
            decreases p,
        {
            proof {
                assert(out@.take(p as int).drop_last() =~= out@.take(p - 1));
            }
            p = p - 1;
        }
        proof {
            if p > 0 {
                assert(out@.take(p as int).last() == out@[p - 1]);
            }
            assert(insert_pos(out@.take(p as int), x.0) == p);
        }
        out.insert(p, x);
    }
    out
}

/// Drops the keys of a keyed vector.
pub fn strip_keys<T>(items: Vec<(SortKey, T)>) -> (out: Vec<T>)
    ensures out@ == unkeyed(items@),
{
    let mut rest = items;
    let mut out: Vec<T> = Vec::new();
    let ghost all = rest@;
    while rest.len() > 0
        invariant
            all == items@,
            out@ + unkeyed(rest@) == unkeyed(all),
        decreases rest@.len(),
    {
        let ghost before = rest@;
        let x = rest.remove(0);
        proof {
            assert(unkeyed(before) =~= seq![x.1] + unkeyed(rest@));
        }
        out.push(x.1);
        proof { assert(out@ + unkeyed(rest@) =~= unkeyed(all)); }
    }
    proof { assert(out@ =~= out@ + unkeyed(rest@)); }
    out
}

/// Pairs each element of `s` with the key at the same index of `k`.
pub open spec fn zip_keys<T>(k: Seq<SortKey>, s: Seq<T>) -> Seq<(SortKey, T)> {
    Seq::new(s.len(), |i: int| (k[i], s[i]))
}

/// The elements of `s` stably sorted by the parallel keys `k`.
pub open spec fn sorted_with<T>(k: Seq<SortKey>, s: Seq<T>) -> Seq<T> {
    unkeyed(sort_spec(zip_keys(k, s)))
}

/// Sequences with the same elements keep the same elements when mapped.
pub proof fn lemma_map_same_multiset<A, B>(a: Seq<A>, b: Seq<A>, f: spec_fn(A) -> B)
    requires a.to_multiset() == b.to_multiset(),
    ensures a.map_values(f).to_multiset() == b.map_values(f).to_multiset(),
    decreases a.len(),
{
    broadcast use vstd::seq_lib::group_to_multiset_ensures, vstd::multiset::group_multiset_axioms,
        vstd::seq_lib::to_multiset_build, vstd::seq_lib::to_multiset_remove, vstd::seq_lib::to_multiset_insert,
        vstd::seq_lib::to_multiset_len;
    if a.len() == 0 {
        assert(a.to_multiset().len() == a.len() && b.to_multiset().len() == b.len());
        assert(b.len() == 0);
        assert(a.map_values(f) =~= Seq::<B>::empty());
        assert(b.map_values(f) =~= Seq::<B>::empty());
    } else {
        let x = a.last();
        let a1 = a.drop_last();
        assert(a1.push(x) =~= a);
        assert(a.to_multiset().count(x) > 0);
        assert(b.contains(x));
        let j = choose|j: int| 0 <= j < b.len() && b[j] == x;
        let b1 = b.remove(j);
        assert(b1.to_multiset() =~= a1.to_multiset());
        lemma_map_same_multiset(a1, b1, f);
        assert(a.map_values(f) =~= a1.map_values(f).push(f(x)));
        assert(b.map_values(f) =~= b1.map_values(f).insert(j, f(x)));
    }
}

/// Sorting by keys that a function computes from the elements gives as many elements as
/// were given, each one of them and every one of them present, in non-decreasing order of that
/// function.
pub proof fn lemma_sorted_with_by<T>(s: Seq<T>, kf: spec_fn(T) -> SortKey)
    ensures
        sorted_with(s.map_values(kf), s).len() == s.len(),
        forall|i: int, j: int| 0 <= i < j < s.len()
            ==> key_le(kf(#[trigger] sorted_with(s.map_values(kf), s)[i]), kf(#[trigger] sorted_with(s.map_values(kf), s)[j])),
        forall|i: int| 0 <= i < s.len() ==> s.contains(#[trigger] sorted_with(s.map_values(kf), s)[i]),
        forall|i: int| 0 <= i < s.len() ==> sorted_with(s.map_values(kf), s).contains(#[trigger] s[i]),
        sorted_with(s.map_values(kf), s).to_multiset() == s.to_multiset(),
{
    broadcast use vstd::seq_lib::group_to_multiset_ensures;
    let k = s.map_values(kf);
    let z = zip_keys(k, s);
    let ss = sort_spec(z);
    let r = sorted_with(k, s);
    lemma_sort_sorted_permutation(z);
    assert(ss.len() == z.len()) by {
        assert(ss.to_multiset().len() == z.to_multiset().len());
    }
    assert forall|i: int| 0 <= i < ss.len() implies (#[trigger] ss[i]).0 == kf(ss[i].1) && s.contains(ss[i].1) by {
        assert(ss.contains(ss[i]));
        assert(ss.to_multiset().count(ss[i]) > 0);
        assert(z.contains(ss[i]));
        let m = choose|m: int| 0 <= m < z.len() && z[m] == ss[i];
        assert(z[m] == (k[m], s[m]));
    }
    assert forall|i: int| 0 <= i < s.len() implies r.contains(#[trigger] s[i]) by {
        assert(z[i] == (k[i], s[i]));
        assert(z.contains(z[i]));
        assert(z.to_multiset().count(z[i]) > 0);
        assert(ss.contains(z[i]));
        let m = choose|m: int| 0 <= m < ss.len() && ss[m] == z[i];
        assert(r[m] == s[i]);
    }
    assert forall|i: int, j: int| 0 <= i < j < s.len()
        implies key_le(kf(#[trigger] r[i]), kf(#[trigger] r[j])) by {
        assert(r[i] == ss[i].1 && r[j] == ss[j].1);
        assert(key_le(ss[i].0, ss[j].0));
    }
    lemma_map_same_multiset(ss, z, |p: (SortKey, T)| p.1);
    assert(z.map_values(|p: (SortKey, T)| p.1) =~= s);
}

/// The first element a filter keeps is the first element that passes it.
proof fn lemma_first_of_filter<A>(s: Seq<A>, pred: spec_fn(A) -> bool)
    ensures
        (exists|m: int| 0 <= m < s.len() && pred(s[m])) ==> s.filter(pred).len() > 0
            && exists|m: int| 0 <= m < s.len() && pred(s[m]) && s.filter(pred)[0] == s[m]
                && forall|j: int| 0 <= j < m ==> !pred(#[trigger] s[j]),
    decreases s.len(),
{
    reveal_with_fuel(Seq::<_>::filter, 1);
    if s.len() > 0 && exists|m: int| 0 <= m < s.len() && pred(s[m]) {
        let d = s.drop_last();
        lemma_first_of_filter(d, pred);
        if exists|m: int| 0 <= m < d.len() && pred(d[m]) {
            let m = choose|m: int| 0 <= m < d.len() && pred(d[m]) && d.filter(pred)[0] == d[m]
                && forall|j: int| 0 <= j < m ==> !pred(#[trigger] d[j]);
            assert(s[m] == d[m]);
            assert forall|j: int| 0 <= j < m implies !pred(#[trigger] s[j]) by { assert(s[j] == d[j]); }
            if pred(s.last()) {
                assert(s.filter(pred) == d.filter(pred).push(s.last()));
            }
        } else {
            let m = s.len() - 1;
            assert forall|j: int| 0 <= j < m implies !pred(#[trigger] s[j]) by { assert(s[j] == d[j]); }
            assert forall|j: int| 0 <= j < d.len() implies !pred(#[trigger] d[j]) by {}
            lemma_filter_none(d, pred);
            assert(pred(s[m]));
            assert(s.filter(pred) == d.filter(pred).push(s.last()));
        }
    }
}

/// The first element of a given key in a stable sort by keys computed from the elements is
/// the first element of that key in the sequence sorted.
pub proof fn lemma_sorted_with_first<T>(s: Seq<T>, kf: spec_fn(T) -> SortKey, m: int)
    requires
        0 <= m < s.len(),
        forall|j: int| 0 <= j < m ==> kf(#[trigger] sorted_with(s.map_values(kf), s)[j]) != kf(sorted_with(s.map_values(kf), s)[m]),
    ensures
        exists|m0: int| 0 <= m0 < s.len() && s[m0] == sorted_with(s.map_values(kf), s)[m]
            && forall|j: int| 0 <= j < m0 ==> kf(#[trigger] s[j]) != kf(sorted_with(s.map_values(kf), s)[m]),
{
    broadcast use vstd::seq_lib::group_to_multiset_ensures;
    let k = s.map_values(kf);
    let z = zip_keys(k, s);
    let ss = sort_spec(z);
    let r = sorted_with(k, s);
    lemma_sorted_with_by(s, kf);
    lemma_sort_sorted_permutation(z);
    assert(ss.len() == z.len()) by {
        assert(ss.to_multiset().len() == z.to_multiset().len());
    }
    assert forall|i: int| 0 <= i < ss.len() implies (#[trigger] ss[i]).0 == kf(ss[i].1) by {
        assert(ss.contains(ss[i]));
        assert(ss.to_multiset().count(ss[i]) > 0);
        assert(z.contains(ss[i]));
        let q = choose|q: int| 0 <= q < z.len() && z[q] == ss[i];
        assert(z[q] == (k[q], s[q]));
    }
    let key = kf(r[m]);
    let pred = key_is::<T>(key);
    assert(r[m] == ss[m].1);
    assert(pred(ss[m]));
    lemma_first_of_filter(ss, pred);
    let m1 = choose|m1: int| 0 <= m1 < ss.len() && pred(ss[m1]) && ss.filter(pred)[0] == ss[m1]
        && forall|j: int| 0 <= j < m1 ==> !pred(#[trigger] ss[j]);
    if m1 < m {
        assert(r[m1] == ss[m1].1);
        assert(kf(r[m1]) != key);
    }
    if m < m1 {
        assert(!pred(ss[m]));
    }
    assert(m1 == m);
    lemma_sort_stable(z, key);
    assert(z[m] == (k[m], s[m]));
    assert(ss.filter(pred).len() > 0);
    if !(exists|q: int| 0 <= q < z.len() && pred(z[q])) {
        assert forall|j: int| 0 <= j < z.len() implies !pred(#[trigger] z[j]) by {}
        lemma_filter_none(z, pred);
        assert(false);
    }
    lemma_first_of_filter(z, pred);
    let m0 = choose|m0: int| 0 <= m0 < z.len() && pred(z[m0]) && z.filter(pred)[0] == z[m0]
        && forall|j: int| 0 <= j < m0 ==> !pred(#[trigger] z[j]);
    assert(z[m0] == ss[m]);
    assert(z[m0] == (k[m0], s[m0]));
    assert forall|j: int| 0 <= j < m0 implies kf(#[trigger] s[j]) != key by {
        assert(z[j] == (k[j], s[j]));
        assert(!pred(z[j]));
    }
}

/// Sorts `items` stably by the parallel `keys`.
pub fn sort_with_keys<T>(items: Vec<T>, keys: Vec<SortKey>) -> (out: Vec<T>)
    requires keys@.len() == items@.len(),
    ensures out@ == sorted_with(keys@, items@),
{
    let ghost k0 = keys@;
    let ghost s0 = items@;
    let mut rest = items;
    let mut ks = keys;
    let mut pairs: Vec<(SortKey, T)> = Vec::new();
    while rest.len() > 0
        invariant
            ks@.len() == rest@.len(),
            pairs@.len() + rest@.len() == s0.len(),
            s0.len() == k0.len(),
            forall|i: int| 0 <= i < pairs@.len() ==> #[trigger] pairs@[i] == (k0[i], s0[i]),
            forall|i: int| 0 <= i < rest@.len() ==> #[trigger] rest@[i] == s0[i + pairs@.len()]
                && ks@[i] == k0[i + pairs@.len()],
        decreases rest@.len(),
    {
        let x = rest.remove(0);
        let k = ks.remove(0);
        pairs.push((k, x));
    }
    proof { assert(pairs@ =~= zip_keys(k0, s0)); }
    strip_keys(sort_keyed(pairs))
}


/// The pairs `(l, j)` with `l < j < r` for which `p(l, j)` holds, by ascending `j`.
pub open spec fn pair_row(l: int, r: int, p: spec_fn(int, int) -> bool) -> Seq<(usize, usize)>
    decreases r - l,
{
    if r <= l + 1 {
        Seq::empty()
    } else {
        pair_row(l, r - 1, p) + if p(l, r - 1) { seq![(l as usize, (r - 1) as usize)] } else { Seq::empty() }
    }
}

/// The pairs `(i, j)` with `i < l` and `i < j < n` for which `p(i, j)` holds, by `i` and then `j`.
pub open spec fn pair_rows(l: int, n: int, p: spec_fn(int, int) -> bool) -> Seq<(usize, usize)>
    decreases l,
{
    if l <= 0 { Seq::empty() } else { pair_rows(l - 1, n, p) + pair_row(l - 1, n, p) }
}

/// The element `x` occurs in `a + b` exactly when it occurs in `a` or in `b`.
proof fn lemma_contains_add<T>(a: Seq<T>, b: Seq<T>, x: T)
    ensures (a + b).contains(x) <==> a.contains(x) || b.contains(x),
{
    if (a + b).contains(x) {
        let k = choose|k: int| 0 <= k < (a + b).len() && (a + b)[k] == x;
        if k < a.len() { assert(a[k] == (a + b)[k]); } else { assert(b[k - a.len()] == (a + b)[k]); }
    }
    if a.contains(x) {
        let k = choose|k: int| 0 <= k < a.len() && a[k] == x;
        assert((a + b)[k] == a[k]);
    }
    if b.contains(x) {
        let k = choose|k: int| 0 <= k < b.len() && b[k] == x;
        assert((a + b)[a.len() + k] == b[k]);
    }
}

/// A pair is listed in a row exactly when it lies in the row's range and satisfies `p`.
pub proof fn lemma_pair_row_contains(l: int, r: int, p: spec_fn(int, int) -> bool, i: usize, j: usize)
    requires 0 <= l, r <= usize::MAX + 1,
    ensures pair_row(l, r, p).contains((i, j)) <==> (i == l && l < j < r && p(i as int, j as int)),
    decreases r - l,
{
    if r > l + 1 {
        lemma_pair_row_contains(l, r - 1, p, i, j);
        let b: Seq<(usize, usize)> = if p(l, r - 1) { seq![(l as usize, (r - 1) as usize)] } else { Seq::empty() };
        lemma_contains_add(pair_row(l, r - 1, p), b, (i, j));
        if b.contains((i, j)) {
            assert(b[0] == (i, j));
        }
        if i == l && j == r - 1 && p(i as int, j as int) {
            assert(b[0] == (i, j));
        }
    }
}

/// A pair is listed exactly when `i < l`, `i < j < n` and `p(i, j)` holds.
pub proof fn lemma_pair_rows_contains(l: int, n: int, p: spec_fn(int, int) -> bool, i: usize, j: usize)
    requires 0 <= l <= n, n <= usize::MAX + 1,
    ensures pair_rows(l, n, p).contains((i, j)) <==> (i < l && i < j < n && p(i as int, j as int)),
    decreases l,
{
    if l > 0 {
        lemma_pair_rows_contains(l - 1, n, p, i, j);
        lemma_pair_row_contains(l - 1, n, p, i, j);
        lemma_contains_add(pair_rows(l - 1, n, p), pair_row(l - 1, n, p), (i, j));
    }
}


/// `f` applied to the element of a keyed pair, the key kept.
pub open spec fn on_item<T, U>(f: spec_fn(T) -> U) -> spec_fn((SortKey, T)) -> (SortKey, U) {
    |p: (SortKey, T)| (p.0, f(p.1))
}

proof fn lemma_insert_pos_map<T, U>(s: Seq<(SortKey, T)>, f: spec_fn(T) -> U, k: SortKey)
    ensures insert_pos(s.map_values(on_item(f)), k) == insert_pos(s, k),
    decreases s.len(),
{
    if s.len() > 0 {
        assert(s.map_values(on_item(f)).drop_last() =~= s.drop_last().map_values(on_item(f)));
        lemma_insert_pos_map(s.drop_last(), f, k);
    }
}

proof fn lemma_insert_pos_range<T>(s: Seq<(SortKey, T)>, k: SortKey)
    ensures 0 <= insert_pos(s, k) <= s.len(),
    decreases s.len(),
{
    if s.len() > 0 {
        lemma_insert_pos_range(s.drop_last(), k);
    }
}

proof fn lemma_sort_from_map<T, U>(acc: Seq<(SortKey, T)>, rest: Seq<(SortKey, T)>, f: spec_fn(T) -> U)
    ensures
        sort_from(acc.map_values(on_item(f)), rest.map_values(on_item(f))) == sort_from(acc, rest).map_values(on_item(f)),
    decreases rest.len(),
{
    if rest.len() > 0 {
        let g = on_item(f);
        let x = rest[0];
        let p = insert_pos(acc, x.0);
        lemma_insert_pos_map(acc, f, x.0);
        lemma_insert_pos_range(acc, x.0);
        assert(rest.map_values(g)[0] == g(x));
        assert(insert_sorted(acc.map_values(g), g(x)) =~= insert_sorted(acc, x).map_values(g));
        assert(rest.map_values(g).drop_first() =~= rest.drop_first().map_values(g));
        lemma_sort_from_map(insert_sorted(acc, x), rest.drop_first(), f);
    }
}

/// Sorting by parallel keys commutes with applying a function to the elements.
pub proof fn lemma_sorted_with_map<T, U>(k: Seq<SortKey>, s: Seq<T>, f: spec_fn(T) -> U)
    requires k.len() == s.len(),
    ensures sorted_with(k, s).map_values(f) == sorted_with(k, s.map_values(f)),
{
    let g = on_item(f);
    let z = zip_keys(k, s);
    assert(zip_keys(k, s.map_values(f)) =~= z.map_values(g));
    lemma_sort_from_map(Seq::<(SortKey, T)>::empty(), z, f);
    assert(Seq::<(SortKey, T)>::empty().map_values(g) =~= Seq::<(SortKey, U)>::empty());
    let y = sort_spec(z);
    assert(unkeyed(y.map_values(g)) =~= unkeyed(y).map_values(f));
}

} // verus!
