//! Ordering by a key, largest first, keeping the order of arrival among
//! equal keys.

use vstd::prelude::*;

verus! {

/// `s` with `x` inserted after every element whose key is at least that
/// of `x`, at the first element whose key is smaller.
pub open spec fn insert_desc<T>(s: Seq<T>, x: T, key: spec_fn(T) -> int) -> Seq<T>
    decreases s.len(),
{
    if s.len() == 0 {
        seq![x]
    } else if key(s[0]) < key(x) {
        seq![x] + s
    } else {
        seq![s[0]] + insert_desc(s.drop_first(), x, key)
    }
}

/// `s` ordered by decreasing key; equal keys keep their order in `s`.
pub open spec fn sort_desc<T>(s: Seq<T>, key: spec_fn(T) -> int) -> Seq<T>
    decreases s.len(),
{
    if s.len() == 0 {
        s
    } else {
        insert_desc(sort_desc(s.drop_last(), key), s.last(), key)
    }
}

/// Inserting at the first element of smaller key is `insert_desc`.
pub proof fn lemma_insert_desc_at<T>(s: Seq<T>, x: T, key: spec_fn(T) -> int, p: int)
    requires
        0 <= p <= s.len(),
        forall|k: int| 0 <= k < p ==> !(key(#[trigger] s[k]) < key(x)),
        p < s.len() ==> key(s[p]) < key(x),
    ensures
        insert_desc(s, x, key) == s.insert(p, x),
    decreases s.len(),
{
    if s.len() == 0 {
        assert(s.insert(p, x) =~= seq![x]);
    } else if p == 0 {
        assert(s.insert(0, x) =~= seq![x] + s);
    } else {
        let t = s.drop_first();
        assert forall|k: int| 0 <= k < p - 1 implies !(key(#[trigger] t[k]) < key(x)) by {
            assert(t[k] == s[k + 1]);
        }
        lemma_insert_desc_at(t, x, key, p - 1);
        assert(s.insert(p, x) =~= seq![s[0]] + t.insert(p - 1, x));
    }
}

/// Sorting a sequence with one more element at the end inserts it into the
/// sorted rest.
pub proof fn lemma_sort_desc_push<T>(s: Seq<T>, x: T, key: spec_fn(T) -> int)
    ensures
        sort_desc(s.push(x), key) == insert_desc(sort_desc(s, key), x, key),
{
    assert(s.push(x).drop_last() =~= s);
}

/// `insert_desc` inserts at some position.
pub proof fn lemma_insert_desc_is_insert<T>(s: Seq<T>, x: T, key: spec_fn(T) -> int)
    ensures
        exists|p: int| 0 <= p <= s.len() && insert_desc(s, x, key) == s.insert(p, x),
    decreases s.len(),
{
    if s.len() == 0 {
        assert(insert_desc(s, x, key) == s.insert(0, x));
    } else if key(s[0]) < key(x) {
        assert(insert_desc(s, x, key) =~= s.insert(0, x));
    } else {
        let t = s.drop_first();
        lemma_insert_desc_is_insert(t, x, key);
        let q = choose|q: int| 0 <= q <= t.len() && insert_desc(t, x, key) == t.insert(q, x);
        assert(insert_desc(s, x, key) =~= s.insert(q + 1, x));
    }
}

/// Sorting keeps the length.
pub proof fn lemma_sort_desc_len<T>(s: Seq<T>, key: spec_fn(T) -> int)
    ensures
        sort_desc(s, key).len() == s.len(),
    decreases s.len(),
{
    if s.len() > 0 {
        let prev = sort_desc(s.drop_last(), key);
        lemma_sort_desc_len(s.drop_last(), key);
        lemma_insert_desc_is_insert(prev, s.last(), key);
    }
}

/// Every element of the sorted sequence comes from the original one.
pub proof fn lemma_sort_desc_members<T>(s: Seq<T>, key: spec_fn(T) -> int)
    ensures
        sort_desc(s, key).len() == s.len(),
        forall|k: int|
            0 <= k < s.len() ==> exists|m: int| 0 <= m < s.len() && #[trigger] sort_desc(s, key)[k] == s[m],
    decreases s.len(),
{
    if s.len() > 0 {
        let t = s.drop_last();
        let prev = sort_desc(t, key);
        lemma_sort_desc_members(t, key);
        lemma_insert_desc_is_insert(prev, s.last(), key);
        let p = choose|p: int| 0 <= p <= prev.len() && insert_desc(prev, s.last(), key) == prev.insert(p, s.last());
        let cur = prev.insert(p, s.last());
        assert forall|k: int| 0 <= k < s.len() implies exists|m: int|
            0 <= m < s.len() && #[trigger] sort_desc(s, key)[k] == s[m] by {
            if k < p {
                let m = choose|m: int| 0 <= m < t.len() && prev[k] == t[m];
                assert(cur[k] == s[m]);
            } else if k == p {
                assert(cur[k] == s[s.len() - 1]);
            } else {
                assert(exists|m: int| 0 <= m < t.len() && #[trigger] prev[k - 1] == t[m]);
                let m = choose|m: int| 0 <= m < t.len() && prev[k - 1] == t[m];
                assert(cur[k] == s[m]);
            }
        }
    }
}

} // verus!
