//! Stable ordering by a numeric key.

use vstd::prelude::*;

use crate::uint256::U256;

verus! {

/// `s` with `x` behind the last element whose key is not above that of `x`.
pub open spec fn insert_by<T>(s: Seq<T>, x: T, key: spec_fn(T) -> nat) -> Seq<T>
    decreases s.len(),
{
    if s.len() == 0 || key(s.last()) <= key(x) {
        s.push(x)
    } else {
        insert_by(s.drop_last(), x, key).push(s.last())
    }
}

/// The elements of `s` by ascending key, equal keys in their order in `s`.
pub open spec fn stable_sort<T>(s: Seq<T>, key: spec_fn(T) -> nat) -> Seq<T>
    decreases s.len(),
{
    if s.len() == 0 {
        s
    } else {
        insert_by(stable_sort(s.drop_last(), key), s.last(), key)
    }
}

/// Keys never go down from left to right.
pub open spec fn ascending<T>(s: Seq<T>, key: spec_fn(T) -> nat) -> bool {
    forall|i: int, j: int| 0 <= i <= j < s.len() ==> key(#[trigger] s[i]) <= key(#[trigger] s[j])
}

proof fn lemma_insert_by_props<T>(s: Seq<T>, x: T, key: spec_fn(T) -> nat)
    ensures
        insert_by(s, x, key).len() == s.len() + 1,
        insert_by(s, x, key).to_multiset() == s.to_multiset().insert(x),
        ascending(s, key) ==> ascending(insert_by(s, x, key), key),
        forall|i: int|
            0 <= i <= s.len() ==> (#[trigger] insert_by(s, x, key)[i] == x || s.contains(
                insert_by(s, x, key)[i],
            )),
    decreases s.len(),
{
    broadcast use vstd::seq_lib::group_to_multiset_ensures;

    if s.len() == 0 || key(s.last()) <= key(x) {
        let r = s.push(x);
        assert forall|i: int| 0 <= i <= s.len() implies (#[trigger] r[i] == x || s.contains(
            r[i],
        )) by {
            if i < s.len() {
                assert(r[i] == s[i]);
            }
        }
        if ascending(s, key) {
            assert forall|i: int, j: int| 0 <= i <= j < r.len() implies key(#[trigger] r[i]) <= key(
                #[trigger] r[j],
            ) by {
                if j == s.len() && i < j {
                    assert(key(s[i]) <= key(s[s.len() - 1]));
                } else if j < s.len() {
                    assert(key(s[i]) <= key(s[j]));
                }
            }
        }
    } else {
        let t = s.drop_last();
        lemma_insert_by_props(t, x, key);
        let u = insert_by(t, x, key);
        let r = u.push(s.last());
        assert(s =~= t.push(s.last()));
        assert(r.to_multiset() =~= s.to_multiset().insert(x));
        assert forall|i: int| 0 <= i <= s.len() implies (#[trigger] r[i] == x || s.contains(
            r[i],
        )) by {
            if i < u.len() {
                assert(r[i] == u[i]);
                if t.contains(u[i]) {
                    let k = choose|k: int| 0 <= k < t.len() && t[k] == u[i];
                    assert(s[k] == u[i]);
                }
            } else {
                assert(r[i] == s[s.len() - 1]);
            }
        }
        if ascending(s, key) {
            assert(ascending(t, key)) by {
                assert forall|i: int, j: int| 0 <= i <= j < t.len() implies key(#[trigger] t[i])
                    <= key(#[trigger] t[j]) by {
                    assert(key(s[i]) <= key(s[j]));
                }
            }
            assert forall|i: int, j: int| 0 <= i <= j < r.len() implies key(#[trigger] r[i]) <= key(
                #[trigger] r[j],
            ) by {
                if j < u.len() {
                    assert(key(u[i]) <= key(u[j]));
                } else if i < u.len() {
                    if t.contains(u[i]) {
                        let k = choose|k: int| 0 <= k < t.len() && t[k] == u[i];
                        assert(key(s[k]) <= key(s[s.len() - 1]));
                    } else {
                        assert(u[i] == x);
                    }
                }
            }
        }
    }
}

/// Sorting keeps exactly the elements that were there and leaves them in
/// ascending order of their keys.
pub proof fn stable_sort_orders_and_keeps<T>(s: Seq<T>, key: spec_fn(T) -> nat)
    ensures
        stable_sort(s, key).len() == s.len(),
        stable_sort(s, key).to_multiset() == s.to_multiset(),
        ascending(stable_sort(s, key), key),
    decreases s.len(),
{
    broadcast use vstd::seq_lib::group_to_multiset_ensures;

    if s.len() > 0 {
        let t = s.drop_last();
        stable_sort_orders_and_keeps(t, key);
        lemma_insert_by_props(stable_sort(t, key), s.last(), key);
        assert(s =~= t.push(s.last()));
    }
}

/// Every element of the sorted sequence comes from the input, and back.
pub proof fn lemma_stable_sort_contains<T>(s: Seq<T>, key: spec_fn(T) -> nat, x: T)
    ensures
        stable_sort(s, key).contains(x) == s.contains(x),
{
    broadcast use vstd::seq_lib::group_to_multiset_ensures;

    stable_sort_orders_and_keeps(s, key);
    assert(s.contains(x) == (s.to_multiset().count(x) > 0));
    let t = stable_sort(s, key);
    assert(t.contains(x) == (t.to_multiset().count(x) > 0));
}

/// Sorting keeps distinct elements distinct.
pub proof fn lemma_stable_sort_distinct<T>(s: Seq<T>, key: spec_fn(T) -> nat)
    requires
        s.no_duplicates(),
    ensures
        stable_sort(s, key).no_duplicates(),
{
    let t = stable_sort(s, key);
    stable_sort_orders_and_keeps(s, key);
    s.lemma_multiset_has_no_duplicates();
    t.lemma_multiset_has_no_duplicates_conv();
}

proof fn lemma_insert_map<A, B>(
    s: Seq<A>,
    x: A,
    f: spec_fn(A) -> B,
    ka: spec_fn(A) -> nat,
    kb: spec_fn(B) -> nat,
)
    requires
        forall|a: A| ka(a) == kb(#[trigger] f(a)),
    ensures
        insert_by(s, x, ka).map_values(f) == insert_by(s.map_values(f), f(x), kb),
    decreases s.len(),
{
    if s.len() > 0 {
        let m = s.map_values(f);
        assert(m.last() == f(s.last()));
        assert(m.drop_last() =~= s.drop_last().map_values(f));
        lemma_insert_map(s.drop_last(), x, f, ka, kb);
    }
    assert(insert_by(s, x, ka).map_values(f) =~= insert_by(s.map_values(f), f(x), kb));
}

/// Sorting looks at nothing but the keys.
pub proof fn lemma_sort_map<A, B>(
    s: Seq<A>,
    f: spec_fn(A) -> B,
    ka: spec_fn(A) -> nat,
    kb: spec_fn(B) -> nat,
)
    requires
        forall|a: A| ka(a) == kb(#[trigger] f(a)),
    ensures
        stable_sort(s, ka).map_values(f) == stable_sort(s.map_values(f), kb),
    decreases s.len(),
{
    if s.len() > 0 {
        let m = s.map_values(f);
        assert(m.last() == f(s.last()));
        assert(m.drop_last() =~= s.drop_last().map_values(f));
        lemma_sort_map(s.drop_last(), f, ka, kb);
        lemma_insert_map(stable_sort(s.drop_last(), ka), s.last(), f, ka, kb);
    }
    assert(stable_sort(s, ka).map_values(f) =~= stable_sort(s.map_values(f), kb));
}

proof fn lemma_insert_by_position<T>(s: Seq<T>, x: T, key: spec_fn(T) -> nat, p: int)
    requires
        0 <= p <= s.len(),
        forall|k: int| p <= k < s.len() ==> key(#[trigger] s[k]) > key(x),
        p > 0 ==> key(s[p - 1]) <= key(x),
    ensures
        insert_by(s, x, key) == s.insert(p, x),
    decreases s.len(),
{
    if p == s.len() {
        assert(s.insert(p, x) =~= s.push(x));
    } else {
        let t = s.drop_last();
        lemma_insert_by_position(t, x, key, p);
        assert(t.insert(p, x).push(s.last()) =~= s.insert(p, x));
    }
}

proof fn lemma_insert_keeps_order<T>(
    s: Seq<T>,
    x: T,
    key: spec_fn(T) -> nat,
    earlier: spec_fn(T) -> nat,
)
    requires
        forall|i: int| 0 <= i < s.len() ==> earlier(#[trigger] s[i]) <= earlier(x),
        forall|i: int, j: int|
            0 <= i < j < s.len() && key(#[trigger] s[i]) == key(#[trigger] s[j]) ==> earlier(s[i])
                <= earlier(s[j]),
    ensures
        forall|i: int, j: int|
            0 <= i < j < insert_by(s, x, key).len() && key(#[trigger] insert_by(s, x, key)[i])
                == key(#[trigger] insert_by(s, x, key)[j]) ==> earlier(insert_by(s, x, key)[i])
                <= earlier(insert_by(s, x, key)[j]),
    decreases s.len(),
{
    let r = insert_by(s, x, key);
    if s.len() == 0 || key(s.last()) <= key(x) {
        assert(r == s.push(x));
    } else {
        let t = s.drop_last();
        let u = insert_by(t, x, key);
        assert(forall|i: int| 0 <= i < t.len() ==> t[i] == s[i]);
        lemma_insert_keeps_order(t, x, key, earlier);
        lemma_insert_by_props(t, x, key);
        assert forall|i: int, j: int|
            0 <= i < j < r.len() && key(#[trigger] r[i]) == key(#[trigger] r[j]) implies earlier(
            r[i],
        ) <= earlier(r[j]) by {
            if j < u.len() {
                assert(r[i] == u[i] && r[j] == u[j]);
            } else {
                assert(r[j] == s.last());
                assert(r[i] == u[i]);
                if u[i] != x {
                    let k = choose|k: int| 0 <= k < t.len() && t[k] == u[i];
                    assert(s[k] == u[i]);
                    assert(key(s[k]) == key(s[s.len() - 1]));
                }
            }
        }
    }
}

/// Among elements of equal keys an order that was there before sorting is kept.
pub proof fn stable_sort_keeps_earlier_order<T>(
    s: Seq<T>,
    key: spec_fn(T) -> nat,
    earlier: spec_fn(T) -> nat,
)
    requires
        ascending(s, earlier),
    ensures
        forall|i: int, j: int|
            0 <= i < j < stable_sort(s, key).len() && key(#[trigger] stable_sort(s, key)[i])
                == key(#[trigger] stable_sort(s, key)[j]) ==> earlier(stable_sort(s, key)[i])
                <= earlier(stable_sort(s, key)[j]),
    decreases s.len(),
{
    if s.len() > 0 {
        let t = s.drop_last();
        assert(forall|i: int| 0 <= i < t.len() ==> t[i] == s[i]);
        assert(ascending(t, earlier)) by {
            assert forall|i: int, j: int| 0 <= i <= j < t.len() implies earlier(#[trigger] t[i])
                <= earlier(#[trigger] t[j]) by {
                assert(earlier(s[i]) <= earlier(s[j]));
            }
        }
        stable_sort_keeps_earlier_order(t, key, earlier);
        let u = stable_sort(t, key);
        stable_sort_orders_and_keeps(t, key);
        assert forall|i: int| 0 <= i < u.len() implies earlier(#[trigger] u[i]) <= earlier(
            s.last(),
        ) by {
            lemma_stable_sort_contains(t, key, u[i]);
            assert(u.contains(u[i]));
            let k = choose|k: int| 0 <= k < t.len() && t[k] == u[i];
            assert(earlier(s[k]) <= earlier(s[s.len() - 1]));
        }
        lemma_insert_keeps_order(u, s.last(), key, earlier);
    }
}

/// Ordered by one key, elements of equal keys by another.
pub open spec fn ascending_by<T>(
    s: Seq<T>,
    major: spec_fn(T) -> nat,
    minor: spec_fn(T) -> nat,
) -> bool {
    forall|i: int, j: int|
        0 <= i < j < s.len() ==> major(#[trigger] s[i]) < major(#[trigger] s[j]) || (major(s[i])
            == major(s[j]) && minor(s[i]) <= minor(s[j]))
}

proof fn lemma_greatest_stays_last<T>(
    s: Seq<T>,
    x: T,
    minor: spec_fn(T) -> nat,
    major: spec_fn(T) -> nat,
)
    requires
        forall|i: int|
            0 <= i < s.len() ==> major(#[trigger] s[i]) < major(x) || (major(s[i]) == major(x)
                && minor(s[i]) <= minor(x)),
    ensures
        stable_sort(insert_by(s, x, minor), major) == stable_sort(s, major).push(x),
    decreases s.len(),
{
    let sorted = stable_sort(s, major);
    stable_sort_orders_and_keeps(s, major);
    if s.len() == 0 || minor(s.last()) <= minor(x) {
        assert(s.push(x).drop_last() =~= s);
        if sorted.len() > 0 {
            lemma_stable_sort_contains(s, major, sorted.last());
            assert(sorted.contains(sorted.last()));
            let k = choose|k: int| 0 <= k < s.len() && s[k] == sorted.last();
            assert(major(s[k]) <= major(x));
        }
    } else {
        let t = s.drop_last();
        let y = s.last();
        assert(forall|i: int| 0 <= i < t.len() ==> t[i] == s[i]);
        assert(s[s.len() - 1] == y);
        lemma_greatest_stays_last(t, x, minor, major);
        assert(insert_by(s, x, minor).drop_last() =~= insert_by(t, x, minor));
        let u = stable_sort(t, major).push(x);
        assert(u.drop_last() =~= stable_sort(t, major));
    }
}

/// What is ordered by two keys already stays as it is when it is sorted by one
/// and then by the other.
pub proof fn sorting_the_sorted_changes_nothing<T>(
    s: Seq<T>,
    minor: spec_fn(T) -> nat,
    major: spec_fn(T) -> nat,
)
    requires
        ascending_by(s, major, minor),
    ensures
        stable_sort(stable_sort(s, minor), major) == s,
    decreases s.len(),
{
    if s.len() > 0 {
        let t = s.drop_last();
        let x = s.last();
        let a = stable_sort(t, minor);
        assert(forall|i: int| 0 <= i < t.len() ==> t[i] == s[i]);
        sorting_the_sorted_changes_nothing(t, minor, major);
        stable_sort_orders_and_keeps(t, minor);
        assert forall|i: int| 0 <= i < a.len() implies major(#[trigger] a[i]) < major(x) || (major(
            a[i],
        ) == major(x) && minor(a[i]) <= minor(x)) by {
            lemma_stable_sort_contains(t, minor, a[i]);
            assert(a.contains(a[i]));
            let k = choose|k: int| 0 <= k < t.len() && t[k] == a[i];
            assert(s[k] == a[i] && s[s.len() - 1] == x);
        }
        lemma_greatest_stays_last(a, x, minor, major);
        assert(t.push(x) =~= s);
    }
}

/// Sorts `items` by the keys given for them, equal keys in their old order.
pub(crate) fn sort_by_keys<T>(
    items: Vec<T>,
    keys: &Vec<U256>,
    Ghost(key): Ghost<spec_fn(T) -> nat>,
) -> (r: Vec<T>)
    requires
        keys.len() == items.len(),
        forall|i: int| 0 <= i < items.len() ==> (#[trigger] keys[i]).value() == key(items[i]),
    ensures
        r@ == stable_sort(items@, key),
{
    let ghost all = items@;
    let mut rest = items;
    let mut sorted: Vec<T> = Vec::new();
    let mut sorted_keys: Vec<U256> = Vec::new();
    let mut i: usize = 0;
    assert(all.take(0) =~= Seq::empty());
    assert(all.skip(0) =~= all);
    while i < keys.len()
        invariant
            i <= keys.len(),
            keys.len() == all.len(),
            forall|k: int| 0 <= k < all.len() ==> (#[trigger] keys[k]).value() == key(all[k]),
            rest@ == all.skip(i as int),
            sorted@ == stable_sort(all.take(i as int), key),
            sorted_keys.len() == sorted.len(),
            forall|k: int|
                0 <= k < sorted.len() ==> (#[trigger] sorted_keys[k]).value() == key(sorted[k]),
        decreases keys.len() - i,
    {
        let x = rest.remove(0);
        let xk: U256 = keys[i];
        assert(x == all[i as int]);
        assert(rest@ =~= all.skip(i + 1));
        let mut p: usize = sorted.len();
        while p > 0 && xk.less_than(&sorted_keys[p - 1])
            invariant
                p <= sorted.len(),
                sorted_keys.len() == sorted.len(),
                xk.value() == key(x),
                forall|k: int|
                    0 <= k < sorted.len() ==> (#[trigger] sorted_keys[k]).value() == key(sorted[k]),
                forall|k: int| p <= k < sorted.len() ==> key(#[trigger] sorted[k]) > key(x),
            decreases p,
        {
            p = p - 1;
        }
        proof {
            if p > 0 {
                assert(sorted_keys[p - 1].value() == key(sorted[p - 1]));
            }
            lemma_insert_by_position(sorted@, x, key, p as int);
            assert(all.take(i + 1).drop_last() =~= all.take(i as int));
            assert(all.take(i + 1).last() == x);
        }
        sorted.insert(p, x);
        sorted_keys.insert(p, xk);
        i = i + 1;
    }
    assert(all.take(i as int) =~= all);
    sorted
}

proof fn lemma_insert_filter_len<T>(s: Seq<T>, x: T, key: spec_fn(T) -> nat, f: spec_fn(T) -> bool)
    ensures
        insert_by(s, x, key).filter(f).len() == s.filter(f).len() + if f(x) {
            1nat
        } else {
            0nat
        },
    decreases s.len(),
{
    broadcast use Seq::lemma_filter_len_push;

    if s.len() > 0 && key(s.last()) > key(x) {
        lemma_insert_filter_len(s.drop_last(), x, key, f);
        assert(s =~= s.drop_last().push(s.last()));
    }
}

/// Sorting leaves it as it was how many elements have some property.
pub proof fn sorting_keeps_counts<T>(s: Seq<T>, key: spec_fn(T) -> nat, f: spec_fn(T) -> bool)
    ensures
        stable_sort(s, key).filter(f).len() == s.filter(f).len(),
    decreases s.len(),
{
    broadcast use Seq::lemma_filter_len_push;

    if s.len() > 0 {
        sorting_keeps_counts(s.drop_last(), key, f);
        lemma_insert_filter_len(stable_sort(s.drop_last(), key), s.last(), key, f);
        assert(s =~= s.drop_last().push(s.last()));
    }
}

/// Where only the first `p` elements can have a property, no more than `p` have it.
pub proof fn lemma_few_in_front<T>(s: Seq<T>, f: spec_fn(T) -> bool, p: int)
    requires
        0 <= p,
        forall|i: int| p <= i < s.len() ==> !f(#[trigger] s[i]),
    ensures
        s.filter(f).len() <= p,
    decreases s.len(),
{
    broadcast use {Seq::lemma_filter_len_push, Seq::lemma_filter_len};

    if s.len() > p {
        let t = s.drop_last();
        assert(s =~= t.push(s.last()));
        assert(s[s.len() - 1] == s.last());
        assert(forall|i: int| 0 <= i < t.len() ==> t[i] == s[i]);
        lemma_few_in_front(t, f, p);
    }
}

/// Where the first `p` elements have a property, at least `p` have it.
pub proof fn lemma_many_in_front<T>(s: Seq<T>, f: spec_fn(T) -> bool, p: int)
    requires
        0 <= p <= s.len(),
        forall|i: int| 0 <= i < p ==> f(#[trigger] s[i]),
    ensures
        s.filter(f).len() >= p,
    decreases s.len(),
{
    broadcast use Seq::lemma_filter_len_push;

    if s.len() > 0 {
        let t = s.drop_last();
        assert(s =~= t.push(s.last()));
        assert(forall|i: int| 0 <= i < t.len() ==> t[i] == s[i]);
        if p == s.len() {
            assert(f(s[p - 1]));
            lemma_many_in_front(t, f, p - 1);
        } else {
            lemma_many_in_front(t, f, p);
        }
    }
}

/// A place in the sorted list tells the rank in the list as it was: no more
/// elements have a lower key than stand before that place, and no more have a
/// higher one than stand behind it.
pub proof fn sorted_place_is_the_rank<T>(s: Seq<T>, key: spec_fn(T) -> nat, p: int)
    requires
        0 <= p < s.len(),
    ensures
        ({
            let x = stable_sort(s, key)[p];
            &&& s.contains(x)
            &&& s.filter(|y: T| key(y) < key(x)).len() <= p
            &&& s.filter(|y: T| key(y) <= key(x)).len() > p
            &&& s.filter(|y: T| key(y) > key(x)).len() < s.len() - p
        }),
{
    let t = stable_sort(s, key);
    stable_sort_orders_and_keeps(s, key);
    let x = t[p];
    assert(t.contains(x));
    lemma_stable_sort_contains(s, key, x);
    let below = |y: T| key(y) < key(x);
    let upto = |y: T| key(y) <= key(x);
    let above = |y: T| key(y) > key(x);
    sorting_keeps_counts(s, key, below);
    sorting_keeps_counts(s, key, upto);
    sorting_keeps_counts(s, key, above);
    lemma_few_in_front(t, below, p);
    lemma_many_in_front(t, upto, p + 1);
    lemma_counts_add_up(t, upto, above);
}

proof fn lemma_counts_add_up<T>(s: Seq<T>, f: spec_fn(T) -> bool, g: spec_fn(T) -> bool)
    requires
        forall|x: T| f(x) != #[trigger] g(x),
    ensures
        s.filter(f).len() + s.filter(g).len() == s.len(),
    decreases s.len(),
{
    broadcast use Seq::lemma_filter_len_push;

    if s.len() > 0 {
        let t = s.drop_last();
        assert(s =~= t.push(s.last()));
        lemma_counts_add_up(t, f, g);
        assert(f(s.last()) != g(s.last()));
    }
}

proof fn lemma_insert_remove<T>(s: Seq<T>, x: T, key: spec_fn(T) -> nat, p: int) -> (q: int)
    requires
        ascending(s, key),
        0 <= p < s.len(),
    ensures
        0 <= q < insert_by(s, x, key).len(),
        insert_by(s, x, key)[q] == s[p],
        insert_by(s.remove(p), x, key) == insert_by(s, x, key).remove(q),
    decreases s.len(),
{
    lemma_insert_by_props(s, x, key);
    if key(s.last()) <= key(x) {
        let t = s.remove(p);
        if t.len() > 0 {
            assert(t.last() == if p == s.len() - 1 {
                s[p - 1]
            } else {
                s.last()
            });
            if p == s.len() - 1 {
                assert(key(s[p - 1]) <= key(s[p]));
            }
        }
        assert(s.push(x).remove(p) =~= t.push(x));
        p
    } else {
        let t = s.drop_last();
        assert(forall|i: int| 0 <= i < t.len() ==> t[i] == s[i]);
        lemma_insert_by_props(t, x, key);
        let u = insert_by(t, x, key);
        if p == s.len() - 1 {
            assert(s.remove(p) =~= t);
            assert(u.push(s.last()).remove(u.len() as int) =~= u);
            u.len() as int
        } else {
            let q = lemma_insert_remove(t, x, key, p);
            assert(s.remove(p).drop_last() =~= t.remove(p));
            assert(s.remove(p).last() == s.last());
            assert(u.push(s.last()).remove(q) =~= u.remove(q).push(s.last()));
            q
        }
    }
}

/// Without one of its elements a list is sorted as it is with it, but for that
/// element.
pub proof fn sorting_without_one<T>(s: Seq<T>, key: spec_fn(T) -> nat, i: int) -> (p: int)
    requires
        0 <= i < s.len(),
    ensures
        0 <= p < s.len(),
        stable_sort(s, key)[p] == s[i],
        stable_sort(s.remove(i), key) == stable_sort(s, key).remove(p),
    decreases s.len(),
{
    let t = s.drop_last();
    let u = stable_sort(t, key);
    stable_sort_orders_and_keeps(s, key);
    stable_sort_orders_and_keeps(t, key);
    if i == s.len() - 1 {
        assert(s.remove(i) =~= t);
        lemma_inserted_at(u, s.last(), key)
    } else {
        let p = sorting_without_one(t, key, i);
        assert(t[i] == s[i]);
        assert(s.remove(i).drop_last() =~= t.remove(i));
        assert(s.remove(i).last() == s.last());
        lemma_insert_remove(u, s.last(), key, p)
    }
}

proof fn lemma_inserted_at<T>(s: Seq<T>, x: T, key: spec_fn(T) -> nat) -> (p: int)
    ensures
        0 <= p < insert_by(s, x, key).len(),
        insert_by(s, x, key)[p] == x,
        insert_by(s, x, key).remove(p) == s,
    decreases s.len(),
{
    lemma_insert_by_props(s, x, key);
    if s.len() == 0 || key(s.last()) <= key(x) {
        assert(s.push(x).remove(s.len() as int) =~= s);
        s.len() as int
    } else {
        let t = s.drop_last();
        let p = lemma_inserted_at(t, x, key);
        let u = insert_by(t, x, key);
        lemma_insert_by_props(t, x, key);
        assert(u.push(s.last()).remove(p) =~= u.remove(p).push(s.last()));
        assert(t.push(s.last()) =~= s);
        p
    }
}

} // verus!
