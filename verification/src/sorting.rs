use vstd::prelude::*;

verus! {

/// A sort key written as two words, the first the more significant, read
/// as one number.
pub open spec fn pair_value(k: (u64, u64)) -> int {
    k.0 * 0x1_0000_0000_0000_0000int + k.1
}

/// `sorted` with `x` placed after every item whose key is at most `x`'s.
pub open spec fn insert_by_key<T>(key: spec_fn(T) -> int, sorted: Seq<T>, x: T) -> Seq<T>
    decreases sorted.len(),
{
    if sorted.len() == 0 {
        seq![x]
    } else if key(sorted.last()) <= key(x) {
        sorted.push(x)
    } else {
        insert_by_key(key, sorted.drop_last(), x).push(sorted.last())
    }
}

/// The items ordered by key, keeping the order of items with equal keys
/// (a stable insertion sort).
pub open spec fn sort_by_key<T>(key: spec_fn(T) -> int, s: Seq<T>) -> Seq<T>
    decreases s.len(),
{
    if s.len() == 0 {
        Seq::empty()
    } else {
        insert_by_key(key, sort_by_key(key, s.drop_last()), s.last())
    }
}

/// Whether the items are in order of key.
pub open spec fn sorted_by_key<T>(key: spec_fn(T) -> int, s: Seq<T>) -> bool {
    forall|i: int, j: int| 0 <= i < j < s.len() ==> key(#[trigger] s[i]) <= key(#[trigger] s[j])
}

/// The items whose key is `v`, in order.
pub open spec fn with_key<T>(key: spec_fn(T) -> int, s: Seq<T>, v: int) -> Seq<T>
    decreases s.len(),
{
    if s.len() == 0 {
        s
    } else if key(s.last()) == v {
        with_key(key, s.drop_last(), v).push(s.last())
    } else {
        with_key(key, s.drop_last(), v)
    }
}

proof fn lemma_sorted_drop_last<T>(key: spec_fn(T) -> int, s: Seq<T>)
    requires
        s.len() > 0,
        sorted_by_key(key, s),
    ensures
        sorted_by_key(key, s.drop_last()),
{
    let t = s.drop_last();
    assert forall|i: int, j: int| 0 <= i < j < t.len() implies key(#[trigger] t[i]) <= key(
        #[trigger] t[j],
    ) by {
        assert(t[i] == s[i] && t[j] == s[j]);
    }
}

proof fn lemma_insert_by_key<T>(key: spec_fn(T) -> int, s: Seq<T>, x: T)
    requires
        sorted_by_key(key, s),
    ensures
        sorted_by_key(key, insert_by_key(key, s, x)),
        insert_by_key(key, s, x).to_multiset() =~= s.to_multiset().insert(x),
        forall|y: T| insert_by_key(key, s, x).contains(y) ==> y == x || s.contains(y),
    decreases s.len(),
{
    broadcast use vstd::seq_lib::group_to_multiset_ensures;

    if s.len() == 0 {
        assert(seq![x] =~= Seq::<T>::empty().push(x));
    } else if key(s.last()) <= key(x) {
        let r = s.push(x);
        assert forall|i: int, j: int| 0 <= i < j < r.len() implies key(#[trigger] r[i]) <= key(
            #[trigger] r[j],
        ) by {
            if j == s.len() {
                if i < s.len() - 1 {
                    assert(key(s[i]) <= key(s[s.len() - 1]));
                }
            } else {
                assert(s[i] == r[i] && s[j] == r[j]);
            }
        }
        assert forall|y: T| r.contains(y) implies y == x || s.contains(y) by {
            let k = choose|k: int| 0 <= k < r.len() && r[k] == y;
            if k < s.len() {
                assert(s[k] == y);
            }
        }
    } else {
        let t = s.drop_last();
        let last = s.last();
        lemma_sorted_drop_last(key, s);
        lemma_insert_by_key(key, t, x);
        let inner = insert_by_key(key, t, x);
        let r = inner.push(last);
        assert(s =~= t.push(last));
        assert forall|i: int, j: int| 0 <= i < j < r.len() implies key(#[trigger] r[i]) <= key(
            #[trigger] r[j],
        ) by {
            if j == inner.len() {
                let y = inner[i];
                assert(inner.contains(y));
                if y != x {
                    assert(t.contains(y));
                    let k = choose|k: int| 0 <= k < t.len() && t[k] == y;
                    assert(s[k] == t[k]);
                    assert(key(s[k]) <= key(s[s.len() - 1]));
                }
            } else {
                assert(inner[i] == r[i] && inner[j] == r[j]);
            }
        }
        assert forall|y: T| r.contains(y) implies y == x || s.contains(y) by {
            let k = choose|k: int| 0 <= k < r.len() && r[k] == y;
            if k < inner.len() {
                assert(inner[k] == y);
                assert(inner.contains(y));
                if y != x {
                    assert(t.contains(y));
                    let m = choose|m: int| 0 <= m < t.len() && t[m] == y;
                    assert(s[m] == t[m]);
                }
            } else {
                assert(s[s.len() - 1] == y);
            }
        }
        assert(s.to_multiset() =~= t.to_multiset().insert(last));
    }
}

/// Sorting by key yields the items in order of key, and the same items
/// (the same number of times each): it is a sort.
pub proof fn lemma_sort_by_key<T>(key: spec_fn(T) -> int, s: Seq<T>)
    ensures
        sorted_by_key(key, sort_by_key(key, s)),
        sort_by_key(key, s).to_multiset() =~= s.to_multiset(),
        sort_by_key(key, s).len() == s.len(),
    decreases s.len(),
{
    broadcast use vstd::seq_lib::group_to_multiset_ensures;

    if s.len() > 0 {
        lemma_sort_by_key(key, s.drop_last());
        lemma_insert_by_key(key, sort_by_key(key, s.drop_last()), s.last());
        assert(s =~= s.drop_last().push(s.last()));
        assert(sort_by_key(key, s).to_multiset().len() == sort_by_key(key, s).len());
        assert(s.to_multiset().len() == s.len());
    } else {
        assert(sort_by_key(key, s) =~= Seq::<T>::empty());
    }
}

proof fn lemma_insert_by_key_stable<T>(key: spec_fn(T) -> int, t: Seq<T>, x: T, v: int)
    requires
        sorted_by_key(key, t),
    ensures
        with_key(key, insert_by_key(key, t, x), v) == if key(x) == v {
            with_key(key, t, v).push(x)
        } else {
            with_key(key, t, v)
        },
    decreases t.len(),
{
    if t.len() == 0 {
        assert(seq![x].drop_last() =~= t);
    } else if key(t.last()) <= key(x) {
        assert(t.push(x).drop_last() =~= t);
    } else {
        let u = t.drop_last();
        lemma_sorted_drop_last(key, t);
        lemma_insert_by_key_stable(key, u, x, v);
        let inner = insert_by_key(key, u, x);
        assert(inner.push(t.last()).drop_last() =~= inner);
    }
}

/// Sorting by key is stable: the items of any one key keep their order.
pub proof fn lemma_sort_by_key_stable<T>(key: spec_fn(T) -> int, s: Seq<T>, v: int)
    ensures
        with_key(key, sort_by_key(key, s), v) == with_key(key, s, v),
    decreases s.len(),
{
    if s.len() > 0 {
        lemma_sort_by_key_stable(key, s.drop_last(), v);
        lemma_sort_by_key(key, s.drop_last());
        lemma_insert_by_key_stable(key, sort_by_key(key, s.drop_last()), s.last(), v);
    }
}

proof fn lemma_insert_at<T>(key: spec_fn(T) -> int, s: Seq<T>, x: T, j: int)
    requires
        0 <= j <= s.len(),
        forall|k: int| j <= k < s.len() ==> key(#[trigger] s[k]) > key(x),
        j > 0 ==> key(s[j - 1]) <= key(x),
    ensures
        insert_by_key(key, s, x) == s.insert(j, x),
    decreases s.len(),
{
    if s.len() == 0 {
        assert(s.insert(j, x) =~= seq![x]);
    } else if j == s.len() {
        assert(s.insert(j, x) =~= s.push(x));
    } else {
        let t = s.drop_last();
        assert(key(s[s.len() - 1]) > key(x));
        lemma_insert_at(key, t, x, j);
        assert(s.insert(j, x) =~= t.insert(j, x).push(s.last()));
    }
}

/// Whether key `a` comes no later than key `b`.
fn pair_le(a: (u64, u64), b: (u64, u64)) -> (res: bool)
    ensures
        res == (pair_value(a) <= pair_value(b)),
{
    a.0 < b.0 || (a.0 == b.0 && a.1 <= b.1)
}

/// The items ordered by key, keeping the order of items with equal keys;
/// `keys` holds each item's key, in the items' order.
pub(crate) fn sort_by_keys<T: Copy>(
    items: &Vec<T>,
    keys: &Vec<(u64, u64)>,
    Ghost(key): Ghost<spec_fn(T) -> int>,
) -> (res: Vec<T>)
    requires
        keys@.len() == items@.len(),
        forall|i: int| 0 <= i < items@.len() ==> key(#[trigger] items@[i]) == pair_value(keys@[i]),
    ensures
        res@ == sort_by_key(key, items@),
{
    let mut res: Vec<T> = Vec::new();
    let mut res_keys: Vec<(u64, u64)> = Vec::new();
    let mut i: usize = 0;
    assert(items@.take(0) =~= Seq::<T>::empty());
    while i < items.len()
        invariant
            i <= items@.len(),
            keys@.len() == items@.len(),
            forall|k: int| 0 <= k < items@.len() ==> key(#[trigger] items@[k]) == pair_value(keys@[k]),
            res@ == sort_by_key(key, items@.take(i as int)),
            res_keys@.len() == res@.len(),
            forall|k: int| 0 <= k < res@.len() ==> key(#[trigger] res@[k]) == pair_value(res_keys@[k]),
        decreases items@.len() - i,
    {
        let x = items[i];
        let kx = keys[i];
        assert(key(items@[i as int]) == pair_value(keys@[i as int]));
        let mut j: usize = res.len();
        while j > 0 && !pair_le(res_keys[j - 1], kx)
            invariant
                j <= res@.len(),
                res_keys@.len() == res@.len(),
                forall|k: int| 0 <= k < res@.len() ==> key(#[trigger] res@[k]) == pair_value(res_keys@[k]),
                key(x) == pair_value(kx),
                forall|k: int| j <= k < res@.len() ==> key(#[trigger] res@[k]) > key(x),
            decreases j,
        {
            assert(key(res@[j - 1]) == pair_value(res_keys@[j - 1]));
            j = j - 1;
        }
        proof {
            if j > 0 {
                assert(key(res@[j - 1]) == pair_value(res_keys@[j - 1]));
            }
            lemma_insert_at(key, res@, x, j as int);
            assert(items@.take(i + 1).drop_last() =~= items@.take(i as int));
            assert(items@.take(i + 1).last() == x);
        }
        let ghost old_res = res@;
        let ghost old_keys = res_keys@;
        res.insert(j, x);
        res_keys.insert(j, kx);
        proof {
            assert forall|k: int| 0 <= k < res@.len() implies key(#[trigger] res@[k]) == pair_value(
                res_keys@[k],
            ) by {
                if k < j {
                    assert(res@[k] == old_res[k] && res_keys@[k] == old_keys[k]);
                } else if k > j {
                    assert(res@[k] == old_res[k - 1] && res_keys@[k] == old_keys[k - 1]);
                }
            }
        }
        i = i + 1;
    }
    assert(items@.take(items@.len() as int) =~= items@);
    res
}

} // verus!
