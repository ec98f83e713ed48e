//! What is known of `lru::LruCache`: its entries in order, the one used last first.

use vstd::prelude::*;

verus! {

/// `lru::LruCache`, of which nothing is seen but through the functions that use it.
#[verifier::external_type_specification]
#[verifier::external_body]
#[verifier::reject_recursive_types(K)]
#[verifier::reject_recursive_types(V)]
#[verifier::reject_recursive_types(S)]
pub struct ExLruCache<K, V, S>(lru::LruCache<K, V, S>);

/// The hasher that an `lru::LruCache` has by default.
#[verifier::external_type_specification]
#[verifier::external_body]
pub struct ExLruDefaultHasher(lru::DefaultHasher);

/// The place of the entry with a key, or the number of entries where no entry has it.
pub open spec fn lru_place<K, V>(s: Seq<(K, V)>, k: K) -> int
    decreases s.len(),
{
    if s.len() == 0 {
        0
    } else if s[0].0 == k {
        0
    } else {
        1 + lru_place(s.skip(1), k)
    }
}

/// The value under a key.
pub open spec fn lru_get<K, V>(s: Seq<(K, V)>, k: K) -> Option<V> {
    if lru_place(s, k) < s.len() {
        Some(s[lru_place(s, k)].1)
    } else {
        None
    }
}

/// The entries without that of a key.
pub open spec fn lru_without<K, V>(s: Seq<(K, V)>, k: K) -> Seq<(K, V)> {
    if lru_place(s, k) < s.len() {
        s.remove(lru_place(s, k))
    } else {
        s
    }
}

/// The entries once a value is put under a key: it comes first, and the entry that was used
/// longest ago leaves where there are too many.
pub open spec fn lru_put<K, V>(s: Seq<(K, V)>, capacity: nat, k: K, v: V) -> Seq<(K, V)> {
    let t = seq![(k, v)] + lru_without(s, k);
    if t.len() > capacity {
        t.take(capacity as int)
    } else {
        t
    }
}

/// The entries once that of a key was looked up: it comes first.
pub open spec fn lru_touch<K, V>(s: Seq<(K, V)>, k: K) -> Seq<(K, V)> {
    match lru_get(s, k) {
        Some(v) => seq![(k, v)] + lru_without(s, k),
        None => s,
    }
}

/// The place of a key lies among the entries or just behind them.
pub proof fn lemma_lru_place<K, V>(s: Seq<(K, V)>, k: K)
    ensures
        0 <= lru_place(s, k) <= s.len(),
        lru_place(s, k) < s.len() ==> s[lru_place(s, k)].0 == k,
    decreases s.len(),
{
    if s.len() > 0 && s[0].0 != k {
        lemma_lru_place(s.skip(1), k);
    }
}

/// What was put last under a key is found there.
pub proof fn lemma_lru_put_get<K, V>(s: Seq<(K, V)>, capacity: nat, k: K, v: V)
    requires
        capacity > 0,
    ensures
        lru_get(lru_put(s, capacity, k, v), k) == Some(v),
        lru_put(s, capacity, k, v).len() <= capacity,
{
    assert(lru_put(s, capacity, k, v)[0] == (k, v));
}

/// Looking a key up changes nothing of what is found under any key.
pub proof fn lemma_lru_touch_get<K, V>(s: Seq<(K, V)>, k: K, other: K)
    ensures
        lru_get(lru_touch(s, k), other) == lru_get(s, other),
{
    lemma_lru_place(s, k);
    if lru_get(s, k) is Some {
        let t = lru_touch(s, k);
        let w = lru_without(s, k);
        assert(t[0].0 == k);
        assert(t.skip(1) =~= w);
        if other != k {
            lemma_lru_without_get(s, k, other);
            lemma_lru_place(w, other);
        }
    }
}

/// An entry that leaves takes no other with it.
proof fn lemma_lru_without_get<K, V>(s: Seq<(K, V)>, k: K, other: K)
    requires
        other != k,
    ensures
        lru_get(lru_without(s, k), other) == lru_get(s, other),
    decreases s.len(),
{
    lemma_lru_place(s, k);
    lemma_lru_place(s, other);
    if s.len() > 0 {
        let t = s.skip(1);
        let w = lru_without(s, k);
        if s[0].0 == k {
            assert(w =~= t);
            lemma_lru_place(t, other);
        } else {
            lemma_lru_place(t, k);
            lemma_lru_without_get(t, k, other);
            assert(w =~= seq![s[0]] + lru_without(t, k));
            assert(w.skip(1) =~= lru_without(t, k));
            lemma_lru_place(lru_without(t, k), other);
            lemma_lru_place(t, other);
        }
    }
}

/// What holds of all entries holds without one of them.
pub proof fn lemma_lru_without_all<K, V>(s: Seq<(K, V)>, k: K, p: spec_fn(V) -> bool)
    requires
        forall|i: int| 0 <= i < s.len() ==> p((#[trigger] s[i]).1),
    ensures
        forall|i: int| 0 <= i < lru_without(s, k).len() ==> p((#[trigger] lru_without(s, k)[i]).1),
        lru_without(s, k).len() <= s.len(),
        lru_get(s, k) is Some ==> p(lru_get(s, k)->0),
{
    lemma_lru_place(s, k);
    let t = lru_without(s, k);
    let n = lru_place(s, k);
    assert forall|i: int| 0 <= i < t.len() implies p((#[trigger] t[i]).1) by {
        if n < s.len() {
            assert(t[i] == if i < n {
                s[i]
            } else {
                s[i + 1]
            });
        }
    }
}

/// What holds of all entries and of a value holds once the value is put among them.
pub proof fn lemma_lru_put_all<K, V>(s: Seq<(K, V)>, capacity: nat, k: K, v: V, p: spec_fn(V) -> bool)
    requires
        forall|i: int| 0 <= i < s.len() ==> p((#[trigger] s[i]).1),
        p(v),
    ensures
        forall|i: int|
            0 <= i < lru_put(s, capacity, k, v).len() ==> p((#[trigger] lru_put(s, capacity, k, v)[i]).1),
{
    lemma_lru_without_all(s, k, p);
    let w = lru_without(s, k);
    let t = lru_put(s, capacity, k, v);
    assert forall|i: int| 0 <= i < t.len() implies p((#[trigger] t[i]).1) by {
        if i > 0 {
            assert(t[i] == w[i - 1]);
        }
    }
}

/// No two entries have one key.
pub open spec fn lru_distinct<K, V>(s: Seq<(K, V)>) -> bool {
    forall|i: int, j: int| 0 <= i < j < s.len() ==> (#[trigger] s[i]).0 != (#[trigger] s[j]).0
}

/// What is found under a key is the value of the first entry that has it, wherever that stands;
/// nothing is found exactly where no entry has it.
pub proof fn lru_get_finds<K, V>(s: Seq<(K, V)>, k: K)
    ensures
        lru_get(s, k) is None ==> forall|i: int| 0 <= i < s.len() ==> (#[trigger] s[i]).0 != k,
        lru_get(s, k) matches Some(v) ==> exists|i: int|
            0 <= i < s.len() && #[trigger] s[i] == (k, v) && forall|j: int|
                0 <= j < i ==> (#[trigger] s[j]).0 != k,
    decreases s.len(),
{
    lemma_lru_place(s, k);
    if s.len() > 0 {
        if s[0].0 == k {
            assert(s[0] == (k, lru_get(s, k)->0));
        } else {
            let t = s.skip(1);
            lemma_lru_place(t, k);
            lru_get_finds(t, k);
            match lru_get(s, k) {
                None => {
                    assert forall|i: int| 0 <= i < s.len() implies (#[trigger] s[i]).0 != k by {
                        if i > 0 {
                            assert(s[i] == t[i - 1]);
                        }
                    }
                },
                Some(v) => {
                    assert(lru_get(t, k) == Some(v));
                    let i = choose|i: int|
                        0 <= i < t.len() && #[trigger] t[i] == (k, v) && forall|j: int|
                            0 <= j < i ==> (#[trigger] t[j]).0 != k;
                    assert(s[i + 1] == (k, v));
                    assert forall|j: int| 0 <= j < i + 1 implies (#[trigger] s[j]).0 != k by {
                        if j > 0 {
                            assert(s[j] == t[j - 1]);
                        }
                    }
                },
            }
        }
    }
}

/// An entry of distinct keys is found under its key.
pub proof fn lru_entries_are_found<K, V>(s: Seq<(K, V)>, i: int)
    requires
        lru_distinct(s),
        0 <= i < s.len(),
    ensures
        lru_get(s, s[i].0) == Some(s[i].1),
{
    lru_get_finds(s, s[i].0);
    if lru_get(s, s[i].0) is None {
        assert(s[i].0 != s[i].0);
    } else {
        let v = lru_get(s, s[i].0)->0;
        let j = choose|j: int| 0 <= j < s.len() && #[trigger] s[j] == (s[i].0, v);
        if j < i {
            assert(s[j].0 != s[i].0);
        } else if i < j {
            assert(s[i].0 != s[j].0);
        }
    }
}

/// An entry that leaves is not found any more; every other is, and those that stay keep their
/// order and stay distinct.
pub proof fn lru_without_forgets<K, V>(s: Seq<(K, V)>, k: K, other: K)
    requires
        lru_distinct(s),
    ensures
        lru_get(lru_without(s, k), k) is None,
        other != k ==> lru_get(lru_without(s, k), other) == lru_get(s, other),
        lru_distinct(lru_without(s, k)),
        lru_without(s, k).len() == s.len() - if lru_get(s, k) is Some {
            1int
        } else {
            0int
        },
        forall|i: int|
            0 <= i < lru_without(s, k).len() ==> #[trigger] lru_without(s, k)[i] == s[if i
                < lru_place(s, k) {
                i
            } else {
                i + 1
            }],
{
    lemma_lru_place(s, k);
    let w = lru_without(s, k);
    let p = lru_place(s, k);
    if other != k {
        lemma_lru_without_get(s, k, other);
    }
    assert forall|i: int, j: int| 0 <= i < j < w.len() implies (#[trigger] w[i]).0 != (
    #[trigger] w[j]).0 by {
        if p < s.len() {
            let a = if i < p { i } else { i + 1 };
            let b = if j < p { j } else { j + 1 };
            assert(w[i] == s[a] && w[j] == s[b]);
        }
    }
    lru_get_finds(w, k);
    if lru_get(w, k) is Some {
        let v = lru_get(w, k)->0;
        let i = choose|i: int| 0 <= i < w.len() && #[trigger] w[i] == (k, v);
        if p < s.len() {
            let a = if i < p { i } else { i + 1 };
            assert(w[i] == s[a]);
            if a < p {
                assert(s[a].0 != s[p].0);
            } else {
                assert(s[p].0 != s[a].0);
            }
        } else {
            lru_get_finds(s, k);
            assert(s[i].0 != k);
        }
    }
}

/// What is put comes first. Behind it the other entries keep their order, and only where there
/// are as many as the cache takes does one leave, the last.
pub proof fn lru_put_comes_first<K, V>(s: Seq<(K, V)>, capacity: nat, k: K, v: V)
    requires
        0 < capacity,
        s.len() <= capacity,
    ensures
        lru_put(s, capacity, k, v).len() > 0,
        lru_put(s, capacity, k, v)[0] == (k, v),
        lru_without(s, k).len() < capacity ==> lru_put(s, capacity, k, v).skip(1) == lru_without(s, k),
        lru_without(s, k).len() == capacity ==> lru_put(s, capacity, k, v).skip(1) == lru_without(
            s,
            k,
        ).drop_last(),
{
    lemma_lru_place(s, k);
    let w = lru_without(s, k);
    let t = lru_put(s, capacity, k, v);
    if w.len() < capacity {
        assert(t.skip(1) =~= w);
    } else {
        assert(t.skip(1) =~= w.drop_last());
    }
}

/// What is put under a key changes nothing under the others, while there is room; keys stay
/// distinct.
pub proof fn lru_put_keeps_others<K, V>(s: Seq<(K, V)>, capacity: nat, k: K, v: V, other: K)
    requires
        lru_distinct(s),
        lru_without(s, k).len() < capacity,
    ensures
        lru_get(lru_put(s, capacity, k, v), k) == Some(v),
        other != k ==> lru_get(lru_put(s, capacity, k, v), other) == lru_get(s, other),
        lru_distinct(lru_put(s, capacity, k, v)),
        lru_put(s, capacity, k, v).len() == lru_without(s, k).len() + 1,
{
    let w = lru_without(s, k);
    let t = lru_put(s, capacity, k, v);
    lru_without_forgets(s, k, other);
    lemma_lru_put_get(s, capacity, k, v);
    assert(t =~= seq![(k, v)] + w);
    assert(t.skip(1) =~= w);
    lemma_lru_place(w, other);
    lru_get_finds(w, k);
    assert forall|i: int, j: int| 0 <= i < j < t.len() implies (#[trigger] t[i]).0 != (
    #[trigger] t[j]).0 by {
        assert(t[j] == w[j - 1]);
        if i > 0 {
            assert(t[i] == w[i - 1]);
        }
    }
}

/// A cache never takes more than its limit, and its keys stay distinct.
pub proof fn lru_put_keeps_limit<K, V>(s: Seq<(K, V)>, capacity: nat, k: K, v: V)
    requires
        lru_distinct(s),
    ensures
        lru_distinct(lru_put(s, capacity, k, v)),
        lru_put(s, capacity, k, v).len() <= capacity,
{
    let w = lru_without(s, k);
    let t = lru_put(s, capacity, k, v);
    lru_without_forgets(s, k, k);
    lru_get_finds(w, k);
    assert forall|i: int, j: int| 0 <= i < j < t.len() implies (#[trigger] t[i]).0 != (
    #[trigger] t[j]).0 by {
        assert(t[j] == w[j - 1]);
        if i > 0 {
            assert(t[i] == w[i - 1]);
        } else {
            assert(t[i] == (k, v));
        }
    }
}

/// An entry that is looked up, or that leaves, changes nothing of the order of the others; one
/// that is looked up comes first.
pub proof fn lru_keeps_order<K, V>(s: Seq<(K, V)>, k: K, i: int)
    requires
        lru_distinct(s),
        0 <= i < s.len(),
        s[i].0 == k,
    ensures
        lru_without(s, k) == s.take(i) + s.skip(i + 1),
        lru_touch(s, k) == seq![s[i]] + s.take(i) + s.skip(i + 1),
{
    lemma_lru_place(s, k);
    lru_entries_are_found(s, i);
    let p = lru_place(s, k);
    assert(p == i);
    assert(s.remove(i) =~= s.take(i) + s.skip(i + 1));
    assert(lru_touch(s, k) =~= seq![s[i]] + s.take(i) + s.skip(i + 1));
}

} // verus!
