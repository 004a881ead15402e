//! Ranking: the positions of a row in the order of their keys, equal keys staying as they stand.

use vstd::prelude::*;
use vstd::seq_lib::{
    lemma_sorted_unique, to_multiset_build, to_multiset_contains, to_multiset_insert,
    to_multiset_len, to_multiset_remove,
};

verus! {

/// Whether position `i` of a row goes before position `j`.
pub open spec fn goes_before(keys: Seq<u64>, i: int, j: int) -> bool {
    keys[i] < keys[j] || (keys[i] == keys[j] && i < j)
}

/// Whether `order` names every position of the row once, the smallest key first.
pub open spec fn is_order(keys: Seq<u64>, order: Seq<usize>) -> bool {
    &&& order.len() == keys.len()
    &&& forall|k: int| 0 <= k < order.len() ==> 0 <= #[trigger] order[k] < keys.len()
    &&& forall|a: int, b: int|
        0 <= a < b < order.len() ==> goes_before(
            keys,
            #[trigger] order[a] as int,
            #[trigger] order[b] as int,
        )
    &&& forall|i: int| 0 <= i < keys.len() ==> #[trigger] is_named(order, i)
}

/// Whether position `i` occurs in `order`.
pub open spec fn is_named(order: Seq<usize>, i: int) -> bool {
    exists|k: int| 0 <= k < order.len() && #[trigger] order[k] == i
}

/// The values at some positions of a row.
pub open spec fn picked(values: Seq<u64>, at: Seq<usize>) -> Seq<u64> {
    at.map_values(|i: usize| values[i as int])
}

/// The sum of a row.
pub open spec fn total(s: Seq<u64>) -> nat
    decreases s.len(),
{
    if s.len() == 0 {
        0
    } else {
        total(s.drop_last()) + s.last() as nat
    }
}

/// A sum that stops at the largest count.
pub open spec fn capped(n: nat) -> u64 {
    if n <= u64::MAX {
        n as u64
    } else {
        u64::MAX
    }
}

/// The first of a row add up to no more than all of it.
pub proof fn lemma_part_total(s: Seq<u64>, n: int)
    requires
        0 <= n <= s.len(),
    ensures
        total(s.take(n)) <= total(s),
    decreases s.len() - n,
{
    if n < s.len() {
        lemma_part_total(s, n + 1);
        assert(s.take(n + 1).drop_last() =~= s.take(n));
    } else {
        assert(s.take(n) =~= s);
    }
}

/// The order of a row of keys.
pub open spec fn order_of(keys: Seq<u64>) -> Seq<usize> {
    choose|order: Seq<usize>| is_order(keys, order)
}

/// A row has one order.
pub proof fn lemma_one_order(keys: Seq<u64>, s: Seq<usize>, t: Seq<usize>)
    requires
        is_order(keys, s),
        is_order(keys, t),
    ensures
        s == t,
{
    assert forall|k: int| 0 <= k < s.len() implies s[k] == t[k] by {
        lemma_same_rank(keys, s, t, k);
    }
    assert(s =~= t);
}

proof fn lemma_same_rank(keys: Seq<u64>, s: Seq<usize>, t: Seq<usize>, k: int)
    requires
        is_order(keys, s),
        is_order(keys, t),
        0 <= k < s.len(),
    ensures
        s[k] == t[k],
    decreases k,
{
    assert forall|j: int| 0 <= j < k implies s[j] == t[j] by {
        lemma_same_rank(keys, s, t, j);
    }
    assert(is_named(t, s[k] as int));
    assert(is_named(s, t[k] as int));
    let m = choose|m: int| 0 <= m < t.len() && #[trigger] t[m] == s[k];
    let n = choose|n: int| 0 <= n < s.len() && #[trigger] s[n] == t[k];
    if m < k {
        assert(goes_before(keys, s[m] as int, s[k] as int));
    }
    if n < k {
        assert(goes_before(keys, t[n] as int, t[k] as int));
    }
    if m > k && n > k {
        assert(goes_before(keys, t[k] as int, t[m] as int));
        assert(goes_before(keys, s[k] as int, s[n] as int));
    }
}

/// Every row has an order.
pub proof fn lemma_has_order(keys: Seq<u64>)
    requires
        keys.len() <= usize::MAX,
    ensures
        is_order(keys, order_of(keys)),
{
    let s = lemma_some_order(keys);
    assert(is_order(keys, s));
}

proof fn lemma_some_order(keys: Seq<u64>) -> (s: Seq<usize>)
    requires
        keys.len() <= usize::MAX,
    ensures
        is_order(keys, s),
    decreases keys.len(),
{
    if keys.len() == 0 {
        Seq::empty()
    } else {
        let before = keys.drop_last();
        let t = lemma_some_order(before);
        let n = (keys.len() - 1) as usize;
        let at = lemma_rank_of(keys, t, t.len() as int);
        let s = t.insert(at, n);
        assert forall|a: int, b: int| 0 <= a < b < s.len() implies goes_before(
            keys,
            #[trigger] s[a] as int,
            #[trigger] s[b] as int,
        ) by {
            let a0 = if a < at { a } else { a - 1 };
            let b0 = if b < at { b } else { b - 1 };
            if a != at && b != at {
                assert(goes_before(before, t[a0] as int, t[b0] as int));
            } else if a == at {
                assert(s[b] == t[b0]);
            } else {
                assert(s[a] == t[a0]);
            }
        }
        assert forall|i: int| 0 <= i < keys.len() implies #[trigger] is_named(s, i) by {
            if i < n {
                assert(is_named(t, i));
                let k = choose|k: int| 0 <= k < t.len() && #[trigger] t[k] == i;
                let k1 = if k < at { k } else { k + 1 };
                assert(s[k1] == i);
            } else {
                assert(s[at] == i);
            }
        }
        s
    }
}

/// Where the last position of a row belongs in the order of the others.
proof fn lemma_rank_of(keys: Seq<u64>, t: Seq<usize>, upto: int) -> (at: int)
    requires
        keys.len() > 0,
        is_order(keys.drop_last(), t),
        0 <= upto <= t.len(),
        forall|k: int| upto <= k < t.len() ==> keys[#[trigger] t[k] as int] > keys.last(),
    ensures
        0 <= at <= t.len(),
        forall|k: int| at <= k < t.len() ==> keys[#[trigger] t[k] as int] > keys.last(),
        forall|k: int| 0 <= k < at ==> keys[#[trigger] t[k] as int] <= keys.last(),
    decreases upto,
{
    if upto > 0 && keys[t[upto - 1] as int] > keys.last() {
        lemma_rank_of(keys, t, upto - 1)
    } else {
        assert forall|k: int| 0 <= k < upto implies keys[#[trigger] t[k] as int] <= keys.last() by {
            if k < upto - 1 {
                assert(goes_before(keys.drop_last(), t[k] as int, t[upto - 1] as int));
            }
        }
        upto
    }
}

/// Whether `part` ranks the positions from `lo` up to `hi`.
spec fn ranks(keys: Seq<u64>, part: Seq<usize>, lo: int, hi: int) -> bool {
    &&& part.len() == hi - lo
    &&& forall|k: int| 0 <= k < part.len() ==> lo <= #[trigger] part[k] < hi
    &&& forall|a: int, b: int|
        0 <= a < b < part.len() ==> goes_before(
            keys,
            #[trigger] part[a] as int,
            #[trigger] part[b] as int,
        )
    &&& forall|i: int| lo <= i < hi ==> #[trigger] is_named(part, i)
}

/// Puts two ranked halves together.
fn merge(keys: &Vec<u64>, left: &Vec<usize>, right: &Vec<usize>, lo: usize, mid: usize, hi: usize) -> (r:
    Vec<usize>)
    requires
        lo <= mid <= hi <= keys@.len(),
        ranks(keys@, left@, lo as int, mid as int),
        ranks(keys@, right@, mid as int, hi as int),
    ensures
        ranks(keys@, r@, lo as int, hi as int),
{
    let mut r: Vec<usize> = Vec::new();
    let mut a: usize = 0;
    let mut b: usize = 0;
    while a < left.len() || b < right.len()
        invariant
            lo <= mid <= hi <= keys@.len(),
            ranks(keys@, left@, lo as int, mid as int),
            ranks(keys@, right@, mid as int, hi as int),
            a <= left@.len(),
            b <= right@.len(),
            r@.len() == a + b,
            forall|k: int| 0 <= k < r@.len() ==> lo <= #[trigger] r@[k] < hi,
            forall|x: int, y: int|
                0 <= x < y < r@.len() ==> goes_before(
                    keys@,
                    #[trigger] r@[x] as int,
                    #[trigger] r@[y] as int,
                ),
            forall|x: int, y: int|
                0 <= x < r@.len() && a <= y < left@.len() ==> goes_before(
                    keys@,
                    #[trigger] r@[x] as int,
                    #[trigger] left@[y] as int,
                ),
            forall|x: int, y: int|
                0 <= x < r@.len() && b <= y < right@.len() ==> goes_before(
                    keys@,
                    #[trigger] r@[x] as int,
                    #[trigger] right@[y] as int,
                ),
            forall|k: int| 0 <= k < a ==> is_named(r@, #[trigger] left@[k] as int),
            forall|k: int| 0 <= k < b ==> is_named(r@, #[trigger] right@[k] as int),
        decreases left@.len() - a + right@.len() - b,
    {
        let ghost done = r@;
        let from_left = if a == left.len() {
            false
        } else if b == right.len() {
            true
        } else {
            keys[left[a]] <= keys[right[b]]
        };
        let next: usize = if from_left {
            left[a]
        } else {
            right[b]
        };
        r.push(next);
        proof {
            assert forall|i: int| is_named(done, i) implies #[trigger] is_named(r@, i) by {
                let k = choose|k: int| 0 <= k < done.len() && #[trigger] done[k] == i;
                assert(r@[k] == i);
            }
            assert(r@[done.len() as int] == next);
            assert(is_named(r@, next as int));
            if from_left {
                assert forall|y: int| a < y < left@.len() implies goes_before(
                    keys@,
                    next as int,
                    #[trigger] left@[y] as int,
                ) by {
                    assert(left@[a as int] == next);
                }
                assert forall|y: int| b <= y < right@.len() implies goes_before(
                    keys@,
                    next as int,
                    #[trigger] right@[y] as int,
                ) by {
                    if y > b {
                        assert(goes_before(keys@, right@[b as int] as int, right@[y] as int));
                    }
                }
            } else {
                assert forall|y: int| b < y < right@.len() implies goes_before(
                    keys@,
                    next as int,
                    #[trigger] right@[y] as int,
                ) by {
                    assert(right@[b as int] == next);
                }
                assert forall|y: int| a <= y < left@.len() implies goes_before(
                    keys@,
                    next as int,
                    #[trigger] left@[y] as int,
                ) by {
                    if y > a {
                        assert(goes_before(keys@, left@[a as int] as int, left@[y] as int));
                    }
                }
            }
        }
        if from_left {
            a = a + 1;
        } else {
            b = b + 1;
        }
    }
    proof {
        assert forall|i: int| lo <= i < hi implies #[trigger] is_named(r@, i) by {
            if i < mid {
                assert(is_named(left@, i));
                let k = choose|k: int| 0 <= k < left@.len() && #[trigger] left@[k] == i;
                assert(is_named(r@, left@[k] as int));
            } else {
                assert(is_named(right@, i));
                let k = choose|k: int| 0 <= k < right@.len() && #[trigger] right@[k] == i;
                assert(is_named(r@, right@[k] as int));
            }
        }
    }
    r
}

/// Ranks the positions from `lo` up to `hi`.
fn rank_part(keys: &Vec<u64>, lo: usize, hi: usize) -> (r: Vec<usize>)
    requires
        lo <= hi <= keys@.len(),
    ensures
        ranks(keys@, r@, lo as int, hi as int),
    decreases hi - lo,
{
    if hi - lo < 2 {
        let mut r: Vec<usize> = Vec::new();
        if lo < hi {
            r.push(lo);
            assert(r@[0] == lo);
        }
        return r;
    }
    let mid: usize = lo + (hi - lo) / 2;
    let left = rank_part(keys, lo, mid);
    let right = rank_part(keys, mid, hi);
    merge(keys, &left, &right, lo, mid, hi)
}

/// Ranks a row of keys, the smallest first.
pub fn ascending(keys: &Vec<u64>) -> (order: Vec<usize>)
    ensures
        is_order(keys@, order@),
        order@ == order_of(keys@),
{
    let order = rank_part(keys, 0, keys.len());
    proof {
        assert(is_order(keys@, order@));
        lemma_one_order(keys@, order@, order_of(keys@));
    }
    order
}

/// The values of a row from the smallest to the largest.
pub open spec fn sorted(values: Seq<u64>) -> Seq<u64> {
    order_of(values).map_values(|i: usize| values[i as int])
}

/// Sorting gives as many values, and they ascend.
pub proof fn lemma_sorted_ascends(values: Seq<u64>)
    requires
        values.len() <= usize::MAX,
    ensures
        sorted(values).len() == values.len(),
        forall|a: int, b: int|
            0 <= a <= b < values.len() ==> sorted(values)[a] <= sorted(values)[b],
{
    lemma_has_order(values);
    let o = order_of(values);
    assert forall|a: int, b: int| 0 <= a <= b < values.len() implies sorted(values)[a] <= sorted(values)[b] by {
        if a < b {
            assert(goes_before(values, o[a] as int, o[b] as int));
        }
    }
}

/// The values of a row from the smallest to the largest.
pub fn sort_values(values: &Vec<u64>) -> (r: Vec<u64>)
    ensures
        r@ == sorted(values@),
        r@.len() == values@.len(),
        forall|a: int, b: int| 0 <= a <= b < r@.len() ==> r@[a] <= r@[b],
{
    let order = ascending(values);
    let mut r: Vec<u64> = Vec::new();
    let mut i: usize = 0;
    while i < order.len()
        invariant
            i <= order@.len(),
            is_order(values@, order@),
            r@ =~= order@.map_values(|i: usize| values@[i as int]).take(i as int),
        decreases order@.len() - i,
    {
        r.push(values[order[i]]);
        i = i + 1;
    }
    proof {
        assert(r@ =~= sorted(values@));
        assert forall|a: int, b: int| 0 <= a <= b < r@.len() implies r@[a] <= r@[b] by {
            if a < b {
                assert(goes_before(values@, order@[a] as int, order@[b] as int));
            }
        }
    }
    r
}

/// The keys turned round, so that the largest goes first.
pub open spec fn turned(keys: Seq<u64>) -> Seq<u64> {
    keys.map_values(|k: u64| (u64::MAX - k) as u64)
}

/// Ranks a row of keys, the largest first.
pub fn descending(keys: &Vec<u64>) -> (order: Vec<usize>)
    ensures
        is_order(turned(keys@), order@),
        order@ == order_of(turned(keys@)),
{
    let mut flipped: Vec<u64> = Vec::new();
    let mut i: usize = 0;
    while i < keys.len()
        invariant
            i <= keys@.len(),
            flipped@ =~= turned(keys@).take(i as int),
        decreases keys@.len() - i,
    {
        flipped.push(u64::MAX - keys[i]);
        i = i + 1;
    }
    assert(flipped@ =~= turned(keys@));
    ascending(&flipped)
}

proof fn lemma_total_without(s: Seq<u64>, k: int)
    requires
        0 <= k < s.len(),
    ensures
        total(s) == total(s.remove(k)) + s[k],
    decreases s.len(),
{
    if k == s.len() - 1 {
        assert(s.remove(k) =~= s.drop_last());
    } else {
        lemma_total_without(s.drop_last(), k);
        assert(s.remove(k).drop_last() =~= s.drop_last().remove(k));
        assert(s.remove(k).last() == s.last());
    }
}

/// Of two rows that hold the same, the one without its last and the other without a position of
/// the same value hold the same too.
proof fn lemma_same_without<T>(s: Seq<T>, t: Seq<T>) -> (k: int)
    requires
        s.to_multiset() == t.to_multiset(),
        s.len() > 0,
    ensures
        s.len() == t.len(),
        0 <= k < t.len(),
        t[k] == s.last(),
        s.drop_last().to_multiset() == t.remove(k).to_multiset(),
{
    to_multiset_len(s);
    to_multiset_len(t);
    to_multiset_contains(s, s.last());
    to_multiset_contains(t, s.last());
    assert(s[s.len() - 1] == s.last());
    let k = choose|k: int| 0 <= k < t.len() && t[k] == s.last();
    to_multiset_remove(s, s.len() - 1);
    to_multiset_remove(t, k);
    assert(s.remove(s.len() - 1) =~= s.drop_last());
    k
}

/// What is summed up does not depend on the order.
pub proof fn lemma_same_total(s: Seq<u64>, t: Seq<u64>)
    requires
        s.to_multiset() == t.to_multiset(),
    ensures
        total(s) == total(t),
    decreases s.len(),
{
    to_multiset_len(s);
    to_multiset_len(t);
    if s.len() > 0 {
        let k = lemma_same_without(s, t);
        lemma_same_total(s.drop_last(), t.remove(k));
        lemma_total_without(t, k);
    }
}

proof fn lemma_all_picked(values: Seq<u64>, at: Seq<usize>, n: nat)
    requires
        n <= values.len(),
        at.len() == n,
        forall|k: int| 0 <= k < n ==> 0 <= #[trigger] at[k] < n,
        forall|a: int, b: int| 0 <= a < b < n ==> #[trigger] at[a] != #[trigger] at[b],
        forall|i: int| 0 <= i < n ==> #[trigger] is_named(at, i),
    ensures
        picked(values, at).to_multiset() == values.take(n as int).to_multiset(),
    decreases n,
{
    if n == 0 {
        assert(values.take(0) =~= picked(values, at));
    } else {
        assert(is_named(at, n - 1));
        let k = choose|k: int| 0 <= k < at.len() && #[trigger] at[k] == n - 1;
        let less = at.remove(k);
        assert forall|j: int| 0 <= j < n - 1 implies 0 <= #[trigger] less[j] < n - 1 by {
            let j0 = if j < k { j } else { j + 1 };
            assert(less[j] == at[j0]);
            if j0 < k {
                assert(at[j0] != at[k]);
            } else {
                assert(at[k] != at[j0]);
            }
        }
        assert forall|a: int, b: int| 0 <= a < b < n - 1 implies #[trigger] less[a]
            != #[trigger] less[b] by {
            let a0 = if a < k { a } else { a + 1 };
            let b0 = if b < k { b } else { b + 1 };
            assert(at[a0] != at[b0]);
        }
        assert forall|i: int| 0 <= i < n - 1 implies #[trigger] is_named(less, i) by {
            assert(is_named(at, i));
            let j = choose|j: int| 0 <= j < at.len() && #[trigger] at[j] == i;
            let j0 = if j < k { j } else { j - 1 };
            assert(less[j0] == i);
        }
        lemma_all_picked(values, less, (n - 1) as nat);
        let p = picked(values, at);
        assert(p.remove(k) =~= picked(values, less));
        assert(p.remove(k).insert(k, p[k]) =~= p);
        to_multiset_insert(p.remove(k), k, p[k]);
        assert(values.take(n as int) =~= values.take(n - 1).push(values[n - 1]));
        to_multiset_build(values.take(n - 1), values[n - 1]);
    }
}

/// An order leaves nothing out and takes nothing twice.
pub proof fn lemma_order_keeps_all(keys: Seq<u64>, order: Seq<usize>, values: Seq<u64>)
    requires
        is_order(keys, order),
        values.len() == keys.len(),
    ensures
        picked(values, order).to_multiset() == values.to_multiset(),
{
    assert forall|a: int, b: int| 0 <= a < b < order.len() implies #[trigger] order[a]
        != #[trigger] order[b] by {
        assert(goes_before(keys, order[a] as int, order[b] as int));
    }
    lemma_all_picked(values, order, values.len());
    assert(values.take(values.len() as int) =~= values);
}

/// Whatever is counted over a row adds up to the same in any order.
pub proof fn lemma_order_keeps_total(keys: Seq<u64>, order: Seq<usize>, values: Seq<u64>)
    requires
        is_order(keys, order),
        values.len() == keys.len(),
    ensures
        total(picked(values, order)) == total(values),
{
    lemma_order_keeps_all(keys, order, values);
    lemma_same_total(picked(values, order), values);
}

/// Rows that hold the same values sort to the same.
pub proof fn lemma_same_sorted(s: Seq<u64>, t: Seq<u64>)
    requires
        s.to_multiset() == t.to_multiset(),
        s.len() <= usize::MAX,
    ensures
        sorted(s) == sorted(t),
{
    to_multiset_len(s);
    to_multiset_len(t);
    lemma_has_order(s);
    lemma_has_order(t);
    lemma_order_keeps_all(s, order_of(s), s);
    lemma_order_keeps_all(t, order_of(t), t);
    assert(sorted(s) =~= picked(s, order_of(s)));
    assert(sorted(t) =~= picked(t, order_of(t)));
    lemma_sorted_ascends(s);
    lemma_sorted_ascends(t);
    lemma_sorted_unique(sorted(s), sorted(t), |a: u64, b: u64| a <= b);
}

/// What `f` takes from each of a row, where it takes anything.
pub open spec fn chosen<T>(s: Seq<T>, f: spec_fn(T) -> Option<u64>) -> Seq<u64>
    decreases s.len(),
{
    if s.len() == 0 {
        Seq::empty()
    } else {
        let before = chosen(s.drop_last(), f);
        match f(s.last()) {
            Some(n) => before.push(n),
            None => before,
        }
    }
}

proof fn lemma_chosen_without<T>(s: Seq<T>, f: spec_fn(T) -> Option<u64>, k: int)
    requires
        0 <= k < s.len(),
    ensures
        chosen(s, f).to_multiset() == (match f(s[k]) {
            Some(n) => chosen(s.remove(k), f).to_multiset().insert(n),
            None => chosen(s.remove(k), f).to_multiset(),
        }),
    decreases s.len(),
{
    let before = chosen(s.drop_last(), f);
    if k == s.len() - 1 {
        assert(s.remove(k) =~= s.drop_last());
        if let Some(n) = f(s.last()) {
            to_multiset_build(before, n);
        }
    } else {
        lemma_chosen_without(s.drop_last(), f, k);
        let rest = s.remove(k);
        assert(rest.drop_last() =~= s.drop_last().remove(k));
        assert(rest.last() == s.last());
        if let Some(n) = f(s.last()) {
            to_multiset_build(before, n);
            to_multiset_build(chosen(rest.drop_last(), f), n);
        }
        assert(chosen(s, f).to_multiset() =~= (match f(s[k]) {
            Some(n) => chosen(rest, f).to_multiset().insert(n),
            None => chosen(rest, f).to_multiset(),
        }));
    }
}

/// What is taken from rows that hold the same is the same, in some order.
pub proof fn lemma_same_chosen<T>(s: Seq<T>, t: Seq<T>, f: spec_fn(T) -> Option<u64>)
    requires
        s.to_multiset() == t.to_multiset(),
    ensures
        chosen(s, f).to_multiset() == chosen(t, f).to_multiset(),
        chosen(s, f).len() == chosen(t, f).len(),
    decreases s.len(),
{
    to_multiset_len(s);
    to_multiset_len(t);
    if s.len() > 0 {
        let k = lemma_same_without(s, t);
        lemma_same_chosen(s.drop_last(), t.remove(k), f);
        lemma_chosen_without(t, f, k);
        lemma_chosen_without(s, f, s.len() - 1);
        assert(s.remove(s.len() - 1) =~= s.drop_last());
    } else {
        assert(s =~= t);
    }
    to_multiset_len(chosen(s, f));
    to_multiset_len(chosen(t, f));
}

/// The sum of a row is what comes of adding its values one after the other.
pub proof fn lemma_total_is_fold<T>(s: Seq<T>, f: spec_fn(T) -> u64, step: spec_fn(int, T) -> int)
    requires
        forall|sum: int, x: T| #[trigger] step(sum, x) == sum + f(x),
    ensures
        total(s.map_values(f)) == s.fold_left(0int, step),
    decreases s.len(),
{
    if s.len() > 0 {
        lemma_total_is_fold(s.drop_last(), f, step);
        assert(s.map_values(f).drop_last() =~= s.drop_last().map_values(f));
        let before = s.drop_last().fold_left(0int, step);
        assert(step(before, s.last()) == before + f(s.last()));
    }
}

// ---------------------------------------------------------------- counting
/// How many of a row are of a kind does not depend on their order.
pub proof fn lemma_same_filter_len<T>(s: Seq<T>, t: Seq<T>, p: spec_fn(T) -> bool)
    requires
        s.to_multiset() == t.to_multiset(),
    ensures
        s.filter(p).len() == t.filter(p).len(),
    decreases s.len(),
{
    reveal(Seq::filter);
    to_multiset_len(s);
    to_multiset_len(t);
    if s.len() > 0 {
        let k = lemma_same_without(s, t);
        lemma_same_filter_len(s.drop_last(), t.remove(k), p);
        lemma_filter_without(t, k, p);
    }
}

proof fn lemma_filter_without<T>(s: Seq<T>, k: int, p: spec_fn(T) -> bool)
    requires
        0 <= k < s.len(),
    ensures
        s.filter(p).len() == s.remove(k).filter(p).len() + if p(s[k]) {
            1nat
        } else {
            0
        },
    decreases s.len(),
{
    reveal(Seq::filter);
    if k == s.len() - 1 {
        assert(s.remove(k) =~= s.drop_last());
    } else {
        lemma_filter_without(s.drop_last(), k, p);
        assert(s.remove(k).drop_last() =~= s.drop_last().remove(k));
        assert(s.remove(k).last() == s.last());
    }
}

/// If the first `k` of a row are of a kind, at least `k` are; if none from `k` on is, at most `k`
/// are.
pub proof fn lemma_filter_len_by_place<T>(s: Seq<T>, p: spec_fn(T) -> bool, k: nat)
    requires
        k <= s.len(),
    ensures
        (forall|i: int| 0 <= i < k ==> p(#[trigger] s[i])) ==> s.filter(p).len() >= k,
        (forall|i: int| k <= i < s.len() ==> !p(#[trigger] s[i])) ==> s.filter(p).len() <= k,
    decreases s.len(),
{
    reveal(Seq::filter);
    if s.len() > 0 {
        let t = s.drop_last();
        let less = if k < s.len() {
            k
        } else {
            (k - 1) as nat
        };
        lemma_filter_len_by_place(t, p, less);
        assert(s[s.len() - 1] == s.last());
        assert(forall|i: int| 0 <= i < t.len() ==> #[trigger] t[i] == s[i]);
    }
}

/// Of a row of things, as many have a value of a kind as there are such values among theirs.
pub proof fn lemma_filter_of_values<T, W>(
    s: Seq<T>,
    f: spec_fn(T) -> W,
    p: spec_fn(W) -> bool,
    q: spec_fn(T) -> bool,
)
    requires
        forall|x: T| #[trigger] q(x) == p(f(x)),
    ensures
        s.map_values(f).filter(p).len() == s.filter(q).len(),
    decreases s.len(),
{
    reveal(Seq::filter);
    if s.len() > 0 {
        lemma_filter_of_values(s.drop_last(), f, p, q);
        assert(s.map_values(f).drop_last() =~= s.drop_last().map_values(f));
        assert(q(s.last()) == p(f(s.last())));
    }
}

} // verus!
