//! Cutting a list into parts of equal size.

use vstd::prelude::*;

verus! {

/// The lower one of two numbers.
pub open spec fn lower(a: int, b: int) -> int {
    if a < b {
        a
    } else {
        b
    }
}

/// The part of `items` that begins at `index * size`.
pub open spec fn part<T>(items: Seq<T>, size: int, index: int) -> Seq<T> {
    items.subrange(
        lower(index * size, items.len() as int),
        lower((index + 1) * size, items.len() as int),
    )
}

/// How many parts there are.
pub open spec fn part_count(len: int, size: int) -> int {
    (len + size - 1) / size
}

/// Cuts `items` into parts of `size`, the last of which may be shorter.
pub fn split_parts<T>(items: Vec<T>, size: usize) -> (r: Vec<Vec<T>>)
    requires
        size > 0,
    ensures
        r@.len() == part_count(items@.len() as int, size as int),
        forall|i: int|
            0 <= i < r@.len() ==> (#[trigger] r@[i])@ == part(items@, size as int, i),
        forall|i: int| 0 <= i < r@.len() ==> 0 < (#[trigger] r@[i])@.len() <= size,
{
    let ghost all = items@;
    let ghost k = size as int;
    let mut rest = items;
    let mut parts: Vec<Vec<T>> = Vec::new();
    let ghost mut done: int = 0;
    proof {
        assert(all.skip(0) =~= all);
        assert(0 * k == 0) by (nonlinear_arith);
    }
    while rest.len() > size
        invariant
            size > 0,
            k == size,
            done == parts.len(),
            0 <= done * k <= all.len(),
            rest@ == all.skip(done * k),
            forall|i: int| 0 <= i < parts@.len() ==> (#[trigger] parts@[i])@ == part(all, k, i),
            forall|i: int| 0 <= i < parts@.len() ==> 0 < (#[trigger] parts@[i])@.len() <= size,
        decreases rest.len(),
    {
        let tail = rest.split_off(size);
        proof {
            assert((done + 1) * k == done * k + k) by (nonlinear_arith);
            assert(rest@ =~= part(all, k, done));
            assert(tail@ =~= all.skip((done + 1) * k));
        }
        parts.push(rest);
        rest = tail;
        proof {
            done = done + 1;
        }
    }
    proof {
        assert((done + 1) * k == done * k + k) by (nonlinear_arith);
    }
    if rest.len() > 0 {
        proof {
            assert(rest@ =~= part(all, k, done));
            lemma_part_count(all.len() as int, k, done);
        }
        parts.push(rest);
    } else {
        proof {
            assert(done * k == all.len());
            if done > 0 {
                assert(parts@[done - 1]@ == part(all, k, done - 1));
                assert((done - 1) * k == done * k - k) by (nonlinear_arith);
                lemma_part_count(all.len() as int, k, done - 1);
            } else {
                assert(all.len() == 0) by (nonlinear_arith)
                    requires
                        done * k == all.len(),
                        done == 0,
                ;
                assert((k - 1) / k == 0) by (nonlinear_arith)
                    requires
                        k > 0,
                ;
            }
        }
    }
    parts
}

proof fn lemma_part_count(n: int, k: int, last: int)
    requires
        k > 0,
        last >= 0,
        last * k < n <= (last + 1) * k,
    ensures
        part_count(n, k) == last + 1,
{
    assert((last + 1) * k == last * k + k) by (nonlinear_arith);
    let r = n + k - 1 - (last + 1) * k;
    vstd::arithmetic::div_mod::lemma_fundamental_div_mod_converse(
        n + k - 1,
        k,
        last + 1,
        r,
    );
}

/// The parts one behind the other are the whole.
pub proof fn parts_make_the_whole<T>(items: Seq<T>, size: int, i: int)
    requires
        size > 0,
        0 <= i < items.len(),
    ensures
        0 <= i / size < part_count(items.len() as int, size),
        part(items, size, i / size)[i % size] == items[i],
        0 <= i % size < part(items, size, i / size).len(),
{
    let q = i / size;
    let r = i % size;
    vstd::arithmetic::div_mod::lemma_fundamental_div_mod(i, size);
    vstd::arithmetic::div_mod::lemma_mod_bound(i, size);
    assert(size * q == q * size) by (nonlinear_arith);
    assert((q + 1) * size == q * size + size) by (nonlinear_arith);
    vstd::arithmetic::div_mod::lemma_div_pos_is_pos(i, size);
    assert(q < part_count(items.len() as int, size)) by {
        let n = items.len() as int;
        assert(q * size <= n - 1);
        vstd::arithmetic::div_mod::lemma_div_is_ordered(q * size + size, n + size - 1, size);
        vstd::arithmetic::div_mod::lemma_div_multiples_vanish(q + 1, size);
        assert(size * (q + 1) == q * size + size) by (nonlinear_arith);
    }
}

/// There are just as many parts as it takes: they have room for everything, and with
/// one part less they had not.
pub proof fn parts_are_just_enough(len: int, size: int)
    requires
        size > 0,
        len >= 0,
    ensures
        part_count(len, size) * size >= len,
        len > 0 ==> (part_count(len, size) - 1) * size < len,
        part_count(len, size) >= 0,
        part_count(len, size) == 0 <==> len == 0,
{
    let c = part_count(len, size);
    let m = len + size - 1;
    vstd::arithmetic::div_mod::lemma_fundamental_div_mod(m, size);
    vstd::arithmetic::div_mod::lemma_mod_bound(m, size);
    vstd::arithmetic::div_mod::lemma_div_pos_is_pos(m, size);
    assert(size * c == c * size) by (nonlinear_arith);
    assert((c - 1) * size == c * size - size) by (nonlinear_arith);
    assert(c * size > 0 ==> c > 0) by (nonlinear_arith)
        requires
            size > 0,
    ;
    if len == 0 {
        assert(c * size < size);
        assert(c < 1) by (nonlinear_arith)
            requires
                c * size < size,
                size > 0,
        ;
    }
}

/// Every part but the last is full, and none is empty.
pub proof fn parts_are_full<T>(items: Seq<T>, size: int, index: int)
    requires
        size > 0,
        0 <= index < part_count(items.len() as int, size),
    ensures
        0 < part(items, size, index).len() <= size,
        index < part_count(items.len() as int, size) - 1 ==> part(items, size, index).len() == size,
{
    let n = items.len() as int;
    let c = part_count(n, size);
    parts_are_just_enough(n, size);
    assert((index + 1) * size == index * size + size) by (nonlinear_arith);
    assert(index * size >= 0) by (nonlinear_arith)
        requires
            index >= 0,
            size > 0,
    ;
    assert(index * size <= (c - 1) * size) by (nonlinear_arith)
        requires
            index <= c - 1,
            size > 0,
    ;
    if index < c - 1 {
        assert((index + 1) * size <= (c - 1) * size) by (nonlinear_arith)
            requires
                index + 1 <= c - 1,
                size > 0,
        ;
    }
}

} // verus!
