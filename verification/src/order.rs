//! Stable sorting by keys of up to three whole numbers.
use vstd::prelude::*;

verus! {

/// A sort key: three numbers that are compared in turn.
pub type Key = (i64, i64, i64);

/// Whether one key comes strictly before another.
pub open spec fn key_less(a: Key, b: Key) -> bool {
    a.0 < b.0 || (a.0 == b.0 && (a.1 < b.1 || (a.1 == b.1 && a.2 < b.2)))
}

/// An item put into a sorted sequence behind every item whose key is not greater.
pub open spec fn insert_by<T>(s: Seq<T>, x: T, key: spec_fn(T) -> Key) -> Seq<T>
    decreases s.len(),
{
    if s.len() == 0 || !key_less(key(x), key(s.last())) {
        s.push(x)
    } else {
        insert_by(s.drop_last(), x, key).push(s.last())
    }
}

/// The items in ascending order of their keys; items with equal keys stay in order.
pub open spec fn stable_sort<T>(s: Seq<T>, key: spec_fn(T) -> Key) -> Seq<T>
    decreases s.len(),
{
    if s.len() == 0 {
        s
    } else {
        insert_by(stable_sort(s.drop_last(), key), s.last(), key)
    }
}

/// Whether no item comes before another with a smaller key.
pub open spec fn sorted_by<T>(s: Seq<T>, key: spec_fn(T) -> Key) -> bool {
    forall|i: int, j: int|
        #![trigger s[i], s[j]]
        0 <= i <= j < s.len() ==> !key_less(key(s[j]), key(s[i]))
}

pub proof fn lemma_insert_by<T>(s: Seq<T>, x: T, key: spec_fn(T) -> Key)
    requires
        sorted_by(s, key),
    ensures
        sorted_by(insert_by(s, x, key), key),
        insert_by(s, x, key).to_multiset() == s.to_multiset().insert(x),
        insert_by(s, x, key).len() == s.len() + 1,
        forall|i: int|
            0 <= i <= s.len() ==> #[trigger] insert_by(s, x, key)[i] == x || s.contains(
                insert_by(s, x, key)[i],
            ),
    decreases s.len(),
{
    broadcast use vstd::seq_lib::group_to_multiset_ensures;

    if s.len() == 0 || !key_less(key(x), key(s.last())) {
        let r = s.push(x);
        assert forall|i: int, j: int|
            #![trigger r[i], r[j]]
            0 <= i <= j < r.len() implies !key_less(key(r[j]), key(r[i])) by {
            if j == s.len() && i < j {
                assert(!key_less(key(s[s.len() - 1]), key(s[i])));
            }
        }
        assert forall|i: int| 0 <= i <= s.len() implies #[trigger] r[i] == x || s.contains(
            r[i],
        ) by {
            if i < s.len() {
                assert(s[i] == r[i]);
            }
        }
    } else {
        let t = s.drop_last();
        lemma_insert_by(t, x, key);
        let q = insert_by(t, x, key);
        let r = q.push(s.last());
        assert forall|i: int, j: int|
            #![trigger r[i], r[j]]
            0 <= i <= j < r.len() implies !key_less(key(r[j]), key(r[i])) by {
            if j == q.len() && i < j {
                assert(q[i] == r[i]);
                if q[i] != x {
                    let k = choose|k: int| 0 <= k < t.len() && t[k] == q[i];
                    assert(s[k] == q[i]);
                    assert(!key_less(key(s[s.len() - 1]), key(s[k])));
                }
            }
        }
        assert forall|i: int| 0 <= i <= s.len() implies #[trigger] r[i] == x || s.contains(
            r[i],
        ) by {
            if i < q.len() {
                if q[i] != x {
                    let k = choose|k: int| 0 <= k < t.len() && t[k] == q[i];
                    assert(s[k] == q[i]);
                }
            } else {
                assert(s[s.len() - 1] == r[i]);
            }
        }
        assert(s =~= t.push(s.last()));
        assert(r.to_multiset() =~= s.to_multiset().insert(x));
    }
}

/// Sorting keeps every item as often as it was there and leaves the keys ascending.
pub proof fn lemma_stable_sort<T>(s: Seq<T>, key: spec_fn(T) -> Key)
    ensures
        sorted_by(stable_sort(s, key), key),
        stable_sort(s, key).to_multiset() == s.to_multiset(),
        stable_sort(s, key).len() == s.len(),
        forall|i: int| 0 <= i < s.len() ==> s.contains(#[trigger] stable_sort(s, key)[i]),
        forall|i: int| 0 <= i < s.len() ==> stable_sort(s, key).contains(#[trigger] s[i]),
    decreases s.len(),
{
    broadcast use vstd::seq_lib::group_to_multiset_ensures;

    if s.len() > 0 {
        let t = s.drop_last();
        lemma_stable_sort(t, key);
        lemma_insert_by(stable_sort(t, key), s.last(), key);
        assert(s =~= t.push(s.last()));
    }
    let r = stable_sort(s, key);
    assert forall|i: int| 0 <= i < s.len() implies s.contains(#[trigger] r[i]) by {
        assert(r.contains(r[i]));
        assert(r.to_multiset().count(r[i]) > 0);
    }
    assert forall|i: int| 0 <= i < s.len() implies r.contains(#[trigger] s[i]) by {
        assert(s.contains(s[i]));
        assert(s.to_multiset().count(s[i]) > 0);
    }
}

/// A sequence that is sorted already is not changed by sorting.
pub proof fn lemma_sort_sorted<T>(s: Seq<T>, key: spec_fn(T) -> Key)
    requires
        sorted_by(s, key),
    ensures
        stable_sort(s, key) == s,
    decreases s.len(),
{
    if s.len() > 0 {
        let t = s.drop_last();
        lemma_sort_sorted(t, key);
        if t.len() > 0 {
            assert(!key_less(key(s[s.len() - 1]), key(s[s.len() - 2])));
        }
        assert(s =~= t.push(s.last()));
    }
}

proof fn lemma_insert_map<T, U>(
    s: Seq<T>,
    x: T,
    f: spec_fn(T) -> U,
    ks: spec_fn(T) -> Key,
    ku: spec_fn(U) -> Key,
)
    requires
        forall|i: int| 0 <= i < s.len() ==> ks(#[trigger] s[i]) == ku(f(s[i])),
        ks(x) == ku(f(x)),
    ensures
        insert_by(s, x, ks).map_values(f) == insert_by(s.map_values(f), f(x), ku),
    decreases s.len(),
{
    let m = s.map_values(f);
    if s.len() == 0 || !key_less(ks(x), ks(s.last())) {
        if s.len() > 0 {
            assert(m.last() == f(s.last()));
        }
        assert(insert_by(s, x, ks).map_values(f) =~= m.push(f(x)));
    } else {
        lemma_insert_map(s.drop_last(), x, f, ks, ku);
        assert(m.drop_last() =~= s.drop_last().map_values(f));
        assert(insert_by(s, x, ks).map_values(f) =~= insert_by(s.drop_last(), x, ks).map_values(
            f,
        ).push(f(s.last())));
    }
}

/// Sorting labels by the keys of what they stand for sorts what they stand for.
pub proof fn lemma_sort_map<T, U>(
    s: Seq<T>,
    f: spec_fn(T) -> U,
    ks: spec_fn(T) -> Key,
    ku: spec_fn(U) -> Key,
)
    requires
        forall|i: int| 0 <= i < s.len() ==> ks(#[trigger] s[i]) == ku(f(s[i])),
    ensures
        stable_sort(s, ks).map_values(f) == stable_sort(s.map_values(f), ku),
    decreases s.len(),
{
    if s.len() == 0 {
        assert(s.map_values(f) =~= Seq::<U>::empty());
        assert(stable_sort(s, ks).map_values(f) =~= stable_sort(s.map_values(f), ku));
    } else {
        let t = s.drop_last();
        lemma_sort_map(t, f, ks, ku);
        lemma_stable_sort(t, ks);
        let r = stable_sort(t, ks);
        assert forall|i: int| 0 <= i < r.len() implies ks(#[trigger] r[i]) == ku(f(r[i])) by {
            assert(t.contains(r[i]));
            let k = choose|k: int| 0 <= k < t.len() && t[k] == r[i];
            assert(s[k] == r[i]);
        }
        lemma_insert_map(r, s.last(), f, ks, ku);
        assert(s.map_values(f).drop_last() =~= t.map_values(f));
        assert(s.map_values(f).last() == f(s.last()));
    }
}

proof fn lemma_insert_position<T>(s: Seq<T>, x: T, key: spec_fn(T) -> Key, p: int)
    requires
        0 <= p <= s.len(),
        forall|i: int| 0 <= i < p ==> !key_less(key(x), key(#[trigger] s[i])),
        forall|i: int| p <= i < s.len() ==> key_less(key(x), key(#[trigger] s[i])),
    ensures
        insert_by(s, x, key) == s.insert(p, x),
    decreases s.len(),
{
    if s.len() == 0 || !key_less(key(x), key(s.last())) {
        assert(p == s.len());
        assert(s.insert(p, x) =~= s.push(x));
    } else {
        lemma_insert_position(s.drop_last(), x, key, p);
        assert(s.insert(p, x) =~= s.drop_last().insert(p, x).push(s.last()));
    }
}

/// The indices from zero up to a bound.
pub open spec fn indices(n: nat) -> Seq<usize> {
    Seq::new(n, |i: int| i as usize)
}

/// The order in which the items behind the keys have to be taken to sort them.
pub open spec fn order_of(keys: Seq<Key>) -> Seq<usize> {
    stable_sort(indices(keys.len()), |i: usize| keys[i as int])
}

/// Taking items in that order sorts them.
pub proof fn lemma_order_sorts<T>(items: Seq<T>, keys: Seq<Key>, key: spec_fn(T) -> Key)
    requires
        keys.len() == items.len(),
        items.len() <= usize::MAX,
        forall|i: int| 0 <= i < items.len() ==> #[trigger] keys[i] == key(items[i]),
    ensures
        order_of(keys).map_values(|i: usize| items[i as int]) == stable_sort(items, key),
{
    let f = |i: usize| items[i as int];
    let ks = |i: usize| keys[i as int];
    let idx = indices(keys.len());
    assert(idx.map_values(f) =~= items);
    lemma_sort_map(idx, f, ks, key);
}

/// Compares two keys.
pub fn less(a: Key, b: Key) -> (r: bool)
    ensures
        r == key_less(a, b),
{
    a.0 < b.0 || (a.0 == b.0 && (a.1 < b.1 || (a.1 == b.1 && a.2 < b.2)))
}

/// The order in which the items behind the keys have to be taken to sort them.
pub fn order(keys: &Vec<Key>) -> (result: Vec<usize>)
    ensures
        result@ == order_of(keys@),
        result.len() == keys.len(),
        forall|i: int| 0 <= i < result.len() ==> (#[trigger] result[i]) < keys.len(),
{
    let mut result: Vec<usize> = Vec::new();
    let ghost key = |i: usize| keys@[i as int];
    let mut n: usize = 0;
    while n < keys.len()
        invariant
            n <= keys.len(),
            key == (|i: usize| keys@[i as int]),
            result@ == stable_sort(indices(n as nat), key),
        decreases keys.len() - n,
    {
        proof {
            lemma_stable_sort(indices(n as nat), key);
            assert forall|i: int| 0 <= i < result.len() implies (#[trigger] result[i]) < n by {
                assert(indices(n as nat).contains(result@[i]));
            }
        }
        let new = keys[n];
        let mut low: usize = 0;
        let mut high: usize = result.len();
        while low < high
            invariant
                low <= high <= result.len(),
                n < keys.len(),
                new == keys[n as int],
                key == (|i: usize| keys@[i as int]),
                sorted_by(result@, key),
                forall|i: int| 0 <= i < result.len() ==> (#[trigger] result[i]) < n,
                forall|i: int| 0 <= i < low ==> !key_less(new, key(#[trigger] result@[i])),
                forall|i: int|
                    high <= i < result.len() ==> key_less(new, key(#[trigger] result@[i])),
            decreases high - low,
        {
            let middle: usize = low + (high - low) / 2;
            let index: usize = result[middle];
            if less(new, keys[index]) {
                proof {
                    assert forall|i: int| middle <= i < result.len() implies key_less(
                        new,
                        key(#[trigger] result@[i]),
                    ) by {
                        assert(!key_less(key(result@[i]), key(result@[middle as int])));
                    }
                }
                high = middle;
            } else {
                proof {
                    assert forall|i: int| 0 <= i < middle + 1 implies !key_less(
                        new,
                        key(#[trigger] result@[i]),
                    ) by {
                        assert(!key_less(key(result@[middle as int]), key(result@[i])));
                    }
                }
                low = middle + 1;
            }
        }
        proof {
            lemma_insert_position(result@, n, key, low as int);
            assert(indices((n + 1) as nat).drop_last() =~= indices(n as nat));
        }
        result.insert(low, n);
        n += 1;
    }
    proof {
        lemma_stable_sort(indices(n as nat), key);
        assert forall|i: int| 0 <= i < result.len() implies (#[trigger] result[i])
            < keys.len() by {
            assert(indices(n as nat).contains(result@[i]));
        }
    }
    result
}

/// The items that have some property, in order.
pub open spec fn keep<T>(s: Seq<T>, property: spec_fn(T) -> bool) -> Seq<T>
    decreases s.len(),
{
    if s.len() == 0 {
        s
    } else if property(s.last()) {
        keep(s.drop_last(), property).push(s.last())
    } else {
        keep(s.drop_last(), property)
    }
}

} // verus!
