use vstd::prelude::*;

verus! {

/// Keys strictly ascending: at most one element per key, in key order.
pub open spec fn key_sorted<T>(s: Seq<T>, key: spec_fn(T) -> int) -> bool {
    forall|i: int, j: int| 0 <= i < j < s.len() ==> key(#[trigger] s[i]) < key(#[trigger] s[j])
}

/// `p` splits `s` into the elements with key below `k` and those at or above it.
pub open spec fn key_split<T>(s: Seq<T>, k: int, p: int, key: spec_fn(T) -> int) -> bool {
    &&& 0 <= p <= s.len()
    &&& forall|i: int| 0 <= i < p ==> key(#[trigger] s[i]) < k
    &&& forall|i: int| p <= i < s.len() ==> key(#[trigger] s[i]) >= k
}

/// Where key `k` belongs in `s`.
pub open spec fn key_pos<T>(s: Seq<T>, k: int, key: spec_fn(T) -> int) -> int {
    choose|p: int| key_split(s, k, p, key)
}

/// `s` with `x` in its place: replacing the element of the same key, or inserted in key order.
pub open spec fn upsert_by<T>(s: Seq<T>, x: T, key: spec_fn(T) -> int) -> Seq<T> {
    let p = key_pos(s, key(x), key);
    if p < s.len() && key(s[p]) == key(x) { s.update(p, x) } else { s.insert(p, x) }
}

/// `s` without its element of key `k`, if it has one.
pub open spec fn remove_by<T>(s: Seq<T>, k: int, key: spec_fn(T) -> int) -> Seq<T> {
    let p = key_pos(s, k, key);
    if p < s.len() && key(s[p]) == k { s.remove(p) } else { s }
}

/// In a key-sorted sequence a split point is the only one, and removing the element there
/// keeps the keys ascending.
pub proof fn lemma_key_pos<T>(s: Seq<T>, k: int, key: spec_fn(T) -> int, p: int)
    requires key_sorted(s, key), key_split(s, k, p, key),
    ensures
        key_pos(s, k, key) == p,
        remove_by(s, k, key) == if p < s.len() && key(s[p]) == k { s.remove(p) } else { s },
        key_sorted(remove_by(s, k, key), key),
{
    let q = key_pos(s, k, key);
    assert(key_split(s, k, q, key));
    if q < p { assert(key(s[q]) >= k); }
    if q > p { assert(key(s[p]) < k); }
    if p < s.len() && key(s[p]) == k {
        let n = s.remove(p);
        assert forall|i: int, j: int| 0 <= i < j < n.len() implies key(#[trigger] n[i]) < key(#[trigger] n[j]) by {
            let a = if i < p { i } else { i + 1 };
            let b = if j < p { j } else { j + 1 };
            assert(n[i] == s[a] && n[j] == s[b]);
        }
    }
}

/// The last element of `s` with key `k`, if any.
pub open spec fn find_by<T>(s: Seq<T>, k: int, key: spec_fn(T) -> int) -> Option<T>
    decreases s.len(),
{
    if s.len() == 0 {
        None
    } else if key(s.last()) == k {
        Some(s.last())
    } else {
        find_by(s.drop_last(), k, key)
    }
}

/// A split point is the place `key_pos` names, and putting an element there keeps the keys
/// strictly ascending.
pub proof fn lemma_upsert_sorted<T>(s: Seq<T>, x: T, key: spec_fn(T) -> int, p: int)
    requires key_sorted(s, key), key_split(s, key(x), p, key),
    ensures
        key_pos(s, key(x), key) == p,
        key_sorted(upsert_by(s, x, key), key),
        upsert_by(s, x, key) == if p < s.len() && key(s[p]) == key(x) { s.update(p, x) } else { s.insert(p, x) },
{
    let q = key_pos(s, key(x), key);
    assert(key_split(s, key(x), q, key));
    if q < p { assert(key(s[q]) >= key(x)); }
    if q > p { assert(key(s[p]) < key(x)); }
    let n = upsert_by(s, x, key);
    if p < s.len() && key(s[p]) == key(x) {
        assert forall|i: int, j: int| 0 <= i < j < n.len() implies key(#[trigger] n[i]) < key(#[trigger] n[j]) by {
            assert(key(s[i]) < key(s[j]));
        }
    } else {
        assert forall|i: int, j: int| 0 <= i < j < n.len() implies key(#[trigger] n[i]) < key(#[trigger] n[j]) by {
            if i < p && j > p { assert(n[j] == s[j - 1]); }
            if i > p { assert(n[i] == s[i - 1] && n[j] == s[j - 1]); assert(key(s[i - 1]) < key(s[j - 1])); }
            if j < p { assert(n[i] == s[i] && n[j] == s[j]); assert(key(s[i]) < key(s[j])); }
            if i == p && j > p { assert(n[j] == s[j - 1]); }
            if j == p && i < p { assert(n[i] == s[i]); }
        }
    }
}

/// In a key-sorted sequence, an element whose key is `k` is the one `find_by` finds.
pub proof fn lemma_find_sorted<T>(s: Seq<T>, k: int, key: spec_fn(T) -> int, i: int)
    requires key_sorted(s, key), 0 <= i < s.len(), key(s[i]) == k,
    ensures find_by(s, k, key) == Some(s[i]),
    decreases s.len(),
{
    if i < s.len() - 1 {
        assert(key(s[i]) < key(s.last()));
        assert(s.drop_last()[i] == s[i]);
        lemma_find_sorted(s.drop_last(), k, key, i);
    }
}

/// `find_by` finds nothing exactly when no element has the key.
pub proof fn lemma_find_none<T>(s: Seq<T>, k: int, key: spec_fn(T) -> int)
    ensures
        find_by(s, k, key) is None <==> forall|i: int| 0 <= i < s.len() ==> key(#[trigger] s[i]) != k,
        find_by(s, k, key) matches Some(x) ==> key(x) == k && s.contains(x),
    decreases s.len(),
{
    if s.len() > 0 {
        lemma_find_none(s.drop_last(), k, key);
        if key(s.last()) == k {
            assert(s[s.len() - 1] == s.last());
        } else if let Some(x) = find_by(s.drop_last(), k, key) {
            let i = choose|i: int| 0 <= i < s.drop_last().len() && s.drop_last()[i] == x;
            assert(s[i] == x);
        }
        if find_by(s, k, key) is None {
            assert forall|i: int| 0 <= i < s.len() implies key(#[trigger] s[i]) != k by {
                if i < s.len() - 1 { assert(s.drop_last()[i] == s[i]); }
            }
        } else if key(s.last()) != k {
            let j = choose|j: int| 0 <= j < s.drop_last().len() && key(#[trigger] s.drop_last()[j]) == k;
            assert(s[j] == s.drop_last()[j]);
        }
    }
}

/// Reading back after a write: the key written gives the element written; every other key
/// gives what it gave before.
pub proof fn lemma_find_after_upsert<T>(s: Seq<T>, x: T, key: spec_fn(T) -> int, k: int)
    requires key_sorted(s, key),
    ensures
        key_sorted(upsert_by(s, x, key), key),
        find_by(upsert_by(s, x, key), k, key) == if k == key(x) { Some(x) } else { find_by(s, k, key) },
{
    let p = key_pos(s, key(x), key);
    lemma_key_split_exists(s, key(x), key);
    lemma_upsert_sorted(s, x, key, p);
    let n = upsert_by(s, x, key);
    if k == key(x) {
        let at = p;
        assert(n[at] == x);
        lemma_find_sorted(n, k, key, at);
    } else {
        lemma_find_none(s, k, key);
        lemma_find_none(n, k, key);
        match find_by(s, k, key) {
            Some(y) => {
                let i = choose|i: int| 0 <= i < s.len() && key(#[trigger] s[i]) == k;
                lemma_find_sorted(s, k, key, i);
                let j = if p < s.len() && key(s[p]) == key(x) { i } else if i < p { i } else { i + 1 };
                assert(n[j] == s[i]);
                lemma_find_sorted(n, k, key, j);
            },
            None => {
                assert forall|j: int| 0 <= j < n.len() implies key(#[trigger] n[j]) != k by {
                    if p < s.len() && key(s[p]) == key(x) {
                        if j != p { assert(n[j] == s[j]); }
                    } else {
                        if j < p { assert(n[j] == s[j]); }
                        if j > p { assert(n[j] == s[j - 1]); }
                    }
                }
            },
        }
    }
}

/// Each element after a write is the one written or one that was there before.
pub proof fn lemma_upsert_elems<T>(s: Seq<T>, x: T, key: spec_fn(T) -> int)
    requires key_sorted(s, key),
    ensures
        forall|j: int| 0 <= j < upsert_by(s, x, key).len() ==> #[trigger] upsert_by(s, x, key)[j] == x
            || s.contains(upsert_by(s, x, key)[j]),
{
    let p = key_pos(s, key(x), key);
    lemma_key_split_exists(s, key(x), key);
    let n = upsert_by(s, x, key);
    assert forall|j: int| 0 <= j < n.len() implies #[trigger] n[j] == x || s.contains(n[j]) by {
        if p < s.len() && key(s[p]) == key(x) {
            if j != p { assert(n[j] == s[j]); }
        } else {
            if j < p { assert(n[j] == s[j]); }
            if j > p { assert(n[j] == s[j - 1]); }
        }
    }
}

/// Every key has a split point in a key-sorted sequence.
pub proof fn lemma_key_split_exists<T>(s: Seq<T>, k: int, key: spec_fn(T) -> int)
    requires key_sorted(s, key),
    ensures key_split(s, k, key_pos(s, k, key), key),
    decreases s.len(),
{
    if s.len() == 0 {
        assert(key_split(s, k, 0, key));
    } else {
        let t = s.drop_last();
        assert(key_sorted(t, key)) by {
            assert forall|i: int, j: int| 0 <= i < j < t.len() implies key(#[trigger] t[i]) < key(#[trigger] t[j]) by {
                assert(t[i] == s[i] && t[j] == s[j]);
            }
        }
        lemma_key_split_exists(t, k, key);
        let q = key_pos(t, k, key);
        if key(s.last()) < k {
            assert(q == t.len()) by {
                if q < t.len() {
                    assert(key(t[q]) >= k);
                    assert(key(s[q]) < key(s.last()));
                }
            }
            assert(key_split(s, k, s.len() as int, key));
        } else {
            assert forall|i: int| q <= i < s.len() implies key(#[trigger] s[i]) >= k by {
                if i < s.len() - 1 { assert(s[i] == t[i]); }
            }
            assert forall|i: int| 0 <= i < q implies key(#[trigger] s[i]) < k by {
                assert(s[i] == t[i]);
            }
            assert(key_split(s, k, q, key));
        }
    }
}

} // verus!
