//! Grouping: the positions of a row that carry the same label.

use vstd::prelude::*;

use crate::order::{capped, picked, total};
use crate::text::views;
use crate::textmap::{
    dict, has_key, is_sorted, lemma_dict_at, lemma_has_listing, lemma_sorted_listing, listing_of,
    slot, sorted_listing, TextMap,
};

verus! {

/// The positions at which `l` is the label, in ascending order.
pub open spec fn members(labels: Seq<Seq<char>>, l: Seq<char>) -> Seq<usize>
    decreases labels.len(),
{
    if labels.len() == 0 {
        Seq::empty()
    } else {
        let rest = members(labels.drop_last(), l);
        if labels.last() == l {
            rest.push((labels.len() - 1) as usize)
        } else {
            rest
        }
    }
}

/// Every label with its positions.
pub open spec fn groups(labels: Seq<Seq<char>>) -> Map<Seq<char>, Seq<usize>> {
    Map::new(|l: Seq<char>| labels.contains(l), |l: Seq<char>| members(labels, l))
}

/// A position is in the group of its own label, and in no other; the positions of a group ascend.
pub proof fn lemma_members(labels: Seq<Seq<char>>, l: Seq<char>)
    requires
        labels.len() <= usize::MAX,
    ensures
        forall|k: int|
            0 <= k < members(labels, l).len() ==> 0 <= #[trigger] members(labels, l)[k]
                < labels.len() && labels[members(labels, l)[k] as int] == l,
        forall|a: int, b: int|
            0 <= a < b < members(labels, l).len() ==> #[trigger] members(labels, l)[a]
                < #[trigger] members(labels, l)[b],
        forall|i: int|
            0 <= i < labels.len() && labels[i] == l ==> members(labels, l).contains(i as usize),
        members(labels, l).len() <= labels.len(),
    decreases labels.len(),
{
    if labels.len() > 0 {
        let rest = members(labels.drop_last(), l);
        lemma_members(labels.drop_last(), l);
        assert forall|i: int| 0 <= i < labels.len() && labels[i] == l implies members(labels, l).contains(
            i as usize,
        ) by {
            if i == labels.len() - 1 {
                assert(members(labels, l)[rest.len() as int] == i as usize);
            } else {
                assert(labels.drop_last()[i] == l);
                let k = choose|k: int| 0 <= k < rest.len() && rest[k] == i as usize;
                assert(members(labels, l)[k] == i as usize);
            }
        }
    }
}

/// A label that is on no position has no members.
pub proof fn lemma_no_members(labels: Seq<Seq<char>>, l: Seq<char>)
    requires
        !labels.contains(l),
    ensures
        members(labels, l) == Seq::<usize>::empty(),
    decreases labels.len(),
{
    if labels.len() > 0 {
        assert(labels[labels.len() - 1] == labels.last());
        assert forall|x: Seq<char>| labels.drop_last().contains(x) implies labels.contains(x) by {
            let k = choose|k: int| 0 <= k < labels.drop_last().len() && labels.drop_last()[k] == x;
            assert(labels[k] == x);
        }
        lemma_no_members(labels.drop_last(), l);
    }
}

/// How many positions the groups of a listing hold together.
pub open spec fn group_sizes(s: Seq<(Seq<char>, Seq<usize>)>) -> nat
    decreases s.len(),
{
    if s.len() == 0 {
        0
    } else {
        group_sizes(s.drop_last()) + s.last().1.len()
    }
}

/// How many of the keys of a listing, up to position `n`, are `l`.
spec fn hits(s: Seq<(Seq<char>, Seq<usize>)>, n: nat, l: Seq<char>) -> nat
    decreases n,
{
    if n == 0 {
        0
    } else {
        hits(s, (n - 1) as nat, l) + if s[n - 1].0 == l {
            1nat
        } else {
            0
        }
    }
}

spec fn sizes_upto(s: Seq<(Seq<char>, Seq<usize>)>, n: nat, labels: Seq<Seq<char>>) -> nat
    decreases n,
{
    if n == 0 {
        0
    } else {
        sizes_upto(s, (n - 1) as nat, labels) + members(labels, s[n - 1].0).len()
    }
}

proof fn lemma_hit_once(s: Seq<(Seq<char>, Seq<usize>)>, n: nat, l: Seq<char>)
    requires
        is_sorted(s),
        n <= s.len(),
    ensures
        hits(s, n, l) <= 1,
        hits(s, n, l) == 1 <==> exists|k: int| 0 <= k < n && #[trigger] s[k].0 == l,
    decreases n,
{
    if n > 0 {
        lemma_hit_once(s, (n - 1) as nat, l);
        if s[n - 1].0 == l {
            if exists|k: int| 0 <= k < n - 1 && #[trigger] s[k].0 == l {
                let k = choose|k: int| 0 <= k < n - 1 && #[trigger] s[k].0 == l;
                assert(crate::text::lex_lt(s[k].0, s[n - 1].0));
                crate::text::lemma_lex_irreflexive(l);
            }
        }
    }
}

proof fn lemma_sizes_step(s: Seq<(Seq<char>, Seq<usize>)>, n: nat, labels: Seq<Seq<char>>)
    requires
        labels.len() > 0,
    ensures
        sizes_upto(s, n, labels) == sizes_upto(s, n, labels.drop_last()) + hits(s, n, labels.last()),
    decreases n,
{
    if n > 0 {
        lemma_sizes_step(s, (n - 1) as nat, labels);
    }
}

proof fn lemma_no_sizes(s: Seq<(Seq<char>, Seq<usize>)>, n: nat)
    ensures
        sizes_upto(s, n, Seq::empty()) == 0,
    decreases n,
{
    if n > 0 {
        lemma_no_sizes(s, (n - 1) as nat);
    }
}

proof fn lemma_sizes_all(s: Seq<(Seq<char>, Seq<usize>)>, labels: Seq<Seq<char>>)
    requires
        is_sorted(s),
        forall|i: int| 0 <= i < labels.len() ==> has_key(s, #[trigger] labels[i]),
    ensures
        sizes_upto(s, s.len(), labels) == labels.len(),
    decreases labels.len(),
{
    if labels.len() == 0 {
        assert(labels =~= Seq::<Seq<char>>::empty());
        lemma_no_sizes(s, s.len());
    } else {
        let rest = labels.drop_last();
        assert forall|i: int| 0 <= i < rest.len() implies has_key(s, #[trigger] rest[i]) by {
            assert(rest[i] == labels[i]);
        }
        lemma_sizes_all(s, rest);
        lemma_sizes_step(s, s.len(), labels);
        let l = labels.last();
        assert(has_key(s, labels[labels.len() - 1]));
        assert(s[slot(s, l)].0 == l);
        lemma_hit_once(s, s.len(), l);
    }
}

proof fn lemma_sizes_are_lengths(s: Seq<(Seq<char>, Seq<usize>)>, n: nat, labels: Seq<Seq<char>>)
    requires
        n <= s.len(),
        forall|k: int| 0 <= k < s.len() ==> (#[trigger] s[k]).1 == members(labels, s[k].0),
    ensures
        group_sizes(s.take(n as int)) == sizes_upto(s, n, labels),
    decreases n,
{
    if n > 0 {
        lemma_sizes_are_lengths(s, (n - 1) as nat, labels);
        assert(s.take(n as int).drop_last() =~= s.take(n - 1));
        assert(s.take(n as int).last() == s[n - 1]);
    }
}

/// The groups of a row are a listing, and every position of the row is in exactly one of them.
pub proof fn lemma_groups_share_out(labels: Seq<Seq<char>>)
    ensures
        is_sorted(sorted_listing(groups(labels))),
        dict(sorted_listing(groups(labels))) == groups(labels),
        group_sizes(sorted_listing(groups(labels))) == labels.len(),
        sorted_listing(groups(labels)).len() <= labels.len(),
{
    let m = groups(labels);
    assert(m.dom() =~= labels.to_set()) by {
        assert forall|l: Seq<char>| m.dom().contains(l) == labels.to_set().contains(l) by {
        }
    }
    vstd::seq_lib::seq_to_set_is_finite(labels);
    lemma_has_listing(m);
    let s = sorted_listing(m);
    assert forall|k: int| 0 <= k < s.len() implies (#[trigger] s[k]).1 == members(labels, s[k].0) by {
        lemma_dict_at(s, k);
    }
    assert forall|i: int| 0 <= i < labels.len() implies has_key(s, #[trigger] labels[i]) by {
        assert(labels.contains(labels[i]));
        assert(m.contains_key(labels[i]));
    }
    lemma_sizes_all(s, labels);
    lemma_sizes_are_lengths(s, s.len(), labels);
    assert(s.take(s.len() as int) =~= s);
    assert forall|k: int| 0 <= k < s.len() implies (#[trigger] s[k]).1.len() > 0 by {
        assert(has_key(s, s[k].0));
        assert(m.contains_key(s[k].0));
        lemma_some_member(labels, s[k].0);
    }
    lemma_sizes_at_least(s);
}

/// The sizes of the groups of a row, told one by one, add up to the row.
pub proof fn lemma_sizes_add_up(labels: Seq<Seq<char>>, sizes: Seq<u64>)
    requires
        sizes.len() == sorted_listing(groups(labels)).len(),
        labels.len() <= usize::MAX,
        forall|k: int|
            0 <= k < sizes.len() ==> #[trigger] sizes[k] == sorted_listing(
                groups(labels),
            )[k].1.len() as u64,
    ensures
        total(sizes) == labels.len(),
{
    let s = sorted_listing(groups(labels));
    lemma_groups_share_out(labels);
    assert forall|k: int| 0 <= k < s.len() implies (#[trigger] s[k]).1.len() <= labels.len() by {
        lemma_dict_at(s, k);
        lemma_members(labels, s[k].0);
    }
    lemma_sizes_upto(labels, sizes, s, s.len());
    assert(s.take(s.len() as int) =~= s);
    assert(sizes.take(s.len() as int) =~= sizes);
}

proof fn lemma_sizes_upto(
    labels: Seq<Seq<char>>,
    sizes: Seq<u64>,
    s: Seq<(Seq<char>, Seq<usize>)>,
    n: nat,
)
    requires
        n <= s.len() == sizes.len(),
        labels.len() <= usize::MAX,
        forall|k: int| 0 <= k < s.len() ==> (#[trigger] s[k]).1.len() <= labels.len(),
        forall|k: int| 0 <= k < s.len() ==> #[trigger] sizes[k] == s[k].1.len() as u64,
    ensures
        total(sizes.take(n as int)) == group_sizes(s.take(n as int)),
    decreases n,
{
    if n > 0 {
        lemma_sizes_upto(labels, sizes, s, (n - 1) as nat);
        assert(sizes.take(n as int).drop_last() =~= sizes.take(n - 1));
        assert(s.take(n as int).drop_last() =~= s.take(n - 1));
        assert(s[n - 1].1.len() <= labels.len());
        assert(sizes[n - 1] == s[n - 1].1.len());
    }
}

spec fn shares_upto(
    s: Seq<(Seq<char>, Seq<usize>)>,
    n: nat,
    labels: Seq<Seq<char>>,
    values: Seq<u64>,
) -> nat
    decreases n,
{
    if n == 0 {
        0
    } else {
        shares_upto(s, (n - 1) as nat, labels, values) + total(
            picked(values, members(labels, s[n - 1].0)),
        )
    }
}

/// What the keys of a listing, up to position `n`, add up to where `l` is worth `v`.
spec fn worth(s: Seq<(Seq<char>, Seq<usize>)>, n: nat, l: Seq<char>, v: nat) -> nat
    decreases n,
{
    if n == 0 {
        0
    } else {
        worth(s, (n - 1) as nat, l, v) + if s[n - 1].0 == l {
            v
        } else {
            0
        }
    }
}

proof fn lemma_worth(s: Seq<(Seq<char>, Seq<usize>)>, n: nat, l: Seq<char>, v: nat)
    ensures
        hits(s, n, l) == 0 ==> worth(s, n, l, v) == 0,
        hits(s, n, l) == 1 ==> worth(s, n, l, v) == v,
    decreases n,
{
    if n > 0 {
        lemma_worth(s, (n - 1) as nat, l, v);
    }
}

proof fn lemma_shares_step(
    s: Seq<(Seq<char>, Seq<usize>)>,
    n: nat,
    labels: Seq<Seq<char>>,
    values: Seq<u64>,
)
    requires
        0 < labels.len() <= usize::MAX,
    ensures
        shares_upto(s, n, labels, values) == shares_upto(s, n, labels.drop_last(), values) + worth(
            s,
            n,
            labels.last(),
            values[labels.len() - 1] as nat,
        ),
    decreases n,
{
    if n > 0 {
        lemma_shares_step(s, (n - 1) as nat, labels, values);
        let l = s[n - 1].0;
        let rest = members(labels.drop_last(), l);
        if labels.last() == l {
            assert(picked(values, members(labels, l)).drop_last() =~= picked(values, rest));
        }
    }
}

proof fn lemma_no_shares(s: Seq<(Seq<char>, Seq<usize>)>, n: nat, values: Seq<u64>)
    ensures
        shares_upto(s, n, Seq::empty(), values) == 0,
    decreases n,
{
    if n > 0 {
        lemma_no_shares(s, (n - 1) as nat, values);
        assert(picked(values, members(Seq::empty(), s[n - 1].0)).len() == 0);
    }
}

proof fn lemma_shares_all(
    s: Seq<(Seq<char>, Seq<usize>)>,
    labels: Seq<Seq<char>>,
    values: Seq<u64>,
)
    requires
        is_sorted(s),
        labels.len() <= values.len(),
        labels.len() <= usize::MAX,
        forall|i: int| 0 <= i < labels.len() ==> has_key(s, #[trigger] labels[i]),
    ensures
        shares_upto(s, s.len(), labels, values) == total(values.take(labels.len() as int)),
    decreases labels.len(),
{
    if labels.len() == 0 {
        assert(labels =~= Seq::<Seq<char>>::empty());
        lemma_no_shares(s, s.len(), values);
    } else {
        let rest = labels.drop_last();
        assert forall|i: int| 0 <= i < rest.len() implies has_key(s, #[trigger] rest[i]) by {
            assert(rest[i] == labels[i]);
        }
        lemma_shares_all(s, rest, values);
        lemma_shares_step(s, s.len(), labels, values);
        let l = labels.last();
        assert(has_key(s, labels[labels.len() - 1]));
        assert(s[slot(s, l)].0 == l);
        lemma_hit_once(s, s.len(), l);
        lemma_worth(s, s.len(), l, values[labels.len() - 1] as nat);
        let all = values.take(labels.len() as int);
        assert(all.drop_last() =~= values.take(rest.len() as int));
        assert(all.last() == values[labels.len() - 1]);
    }
}

proof fn lemma_shares_told(
    s: Seq<(Seq<char>, Seq<usize>)>,
    n: nat,
    labels: Seq<Seq<char>>,
    values: Seq<u64>,
    shares: Seq<u64>,
)
    requires
        n <= s.len() == shares.len(),
        shares_upto(s, n, labels, values) <= u64::MAX,
        forall|k: int| 0 <= k < s.len() ==> (#[trigger] s[k]).1 == members(labels, s[k].0),
        forall|k: int|
            0 <= k < s.len() ==> #[trigger] shares[k] == capped(total(picked(values, s[k].1))),
    ensures
        total(shares.take(n as int)) == shares_upto(s, n, labels, values),
    decreases n,
{
    if n > 0 {
        lemma_shares_told(s, (n - 1) as nat, labels, values, shares);
        assert(shares.take(n as int).drop_last() =~= shares.take(n - 1));
        assert(s[n - 1].1 == members(labels, s[n - 1].0));
        assert(shares.take(n as int).last() == shares[n - 1]);
    }
}

/// What the groups of a row hold of some values, told one by one, adds up to all of them, where
/// all of them can be counted.
pub proof fn lemma_shares_add_up(labels: Seq<Seq<char>>, values: Seq<u64>, shares: Seq<u64>)
    requires
        labels.len() == values.len() <= usize::MAX,
        total(values) <= u64::MAX,
        shares.len() == sorted_listing(groups(labels)).len(),
        forall|k: int|
            0 <= k < shares.len() ==> #[trigger] shares[k] == capped(
                total(picked(values, sorted_listing(groups(labels))[k].1)),
            ),
    ensures
        total(shares) == total(values),
{
    let s = sorted_listing(groups(labels));
    lemma_groups_share_out(labels);
    assert forall|k: int| 0 <= k < s.len() implies (#[trigger] s[k]).1 == members(labels, s[k].0) by {
        lemma_dict_at(s, k);
    }
    assert forall|i: int| 0 <= i < labels.len() implies has_key(s, #[trigger] labels[i]) by {
        assert(labels.contains(labels[i]));
        assert(groups(labels).contains_key(labels[i]));
        assert(dict(s).contains_key(labels[i]));
    }
    lemma_shares_all(s, labels, values);
    assert(values.take(labels.len() as int) =~= values);
    lemma_shares_told(s, s.len(), labels, values, shares);
    assert(shares.take(s.len() as int) =~= shares);
}

proof fn lemma_some_member(labels: Seq<Seq<char>>, l: Seq<char>)
    requires
        labels.contains(l),
    ensures
        members(labels, l).len() > 0,
    decreases labels.len(),
{
    if labels.last() != l {
        let k = choose|k: int| 0 <= k < labels.len() && labels[k] == l;
        assert(labels.drop_last()[k] == l);
        lemma_some_member(labels.drop_last(), l);
    }
}

proof fn lemma_sizes_at_least(s: Seq<(Seq<char>, Seq<usize>)>)
    requires
        forall|k: int| 0 <= k < s.len() ==> (#[trigger] s[k]).1.len() > 0,
    ensures
        s.len() <= group_sizes(s),
    decreases s.len(),
{
    if s.len() > 0 {
        assert forall|k: int| 0 <= k < s.drop_last().len() implies (
        #[trigger] s.drop_last()[k]).1.len() > 0 by {
            assert(s.drop_last()[k] == s[k]);
        }
        lemma_sizes_at_least(s.drop_last());
        assert(s[s.len() - 1].1.len() > 0);
    }
}

/// Sorts the positions of a row by label.
pub fn grouped(labels: &Vec<String>) -> (r: Vec<(String, Vec<usize>)>)
    ensures
        listing_of(r@) == sorted_listing(groups(views(labels@))),
        is_sorted(listing_of(r@)),
        dict(listing_of(r@)) == groups(views(labels@)),
{
    let ghost all = views(labels@);
    let mut ids: TextMap<usize> = TextMap::new();
    let mut buckets: Vec<Vec<usize>> = Vec::new();
    let mut n: usize = 0;
    assert(all.take(0) =~= Seq::<Seq<char>>::empty());
    while n < labels.len()
        invariant
            all == views(labels@),
            n <= labels@.len(),
            forall|l: Seq<char>| ids@.contains_key(l) <==> #[trigger] all.take(n as int).contains(l),
            forall|l: Seq<char>|
                #[trigger] ids@.contains_key(l) ==> ids@[l] < buckets@.len() && buckets@[ids@[l] as int]@
                    == members(all.take(n as int), l),
            forall|l: Seq<char>, m: Seq<char>|
                #[trigger] ids@.contains_key(l) && #[trigger] ids@.contains_key(m) && ids@[l] == ids@[m]
                    ==> l == m,
        decreases labels@.len() - n,
    {
        let ghost before = all.take(n as int);
        let ghost after = all.take(n + 1);
        let ghost old_ids = ids@;
        let ghost old_buckets = buckets@;
        let ghost here = all[n as int];
        proof {
            assert(after.drop_last() =~= before);
            assert(after.last() == here);
            assert(here == labels@[n as int]@);
            assert forall|l: Seq<char>| #[trigger] after.contains(l) <==> before.contains(l) || l == here by {
                if after.contains(l) && l != here {
                    let k = choose|k: int| 0 <= k < after.len() && after[k] == l;
                    assert(before[k] == l);
                }
                if before.contains(l) {
                    let k = choose|k: int| 0 <= k < before.len() && before[k] == l;
                    assert(after[k] == l);
                }
                assert(after[n as int] == here);
            }
        }
        let found = match ids.get(labels[n].as_str()) {
            Some(id) => Some(*id),
            None => None,
        };
        match found {
            Some(id) => {
                let mut bucket: Vec<usize> = Vec::new();
                std::mem::swap(&mut bucket, &mut buckets[id]);
                bucket.push(n);
                buckets.set(id, bucket);
            },
            None => {
                let id: usize = buckets.len();
                let mut bucket: Vec<usize> = Vec::new();
                bucket.push(n);
                buckets.push(bucket);
                ids.insert(labels[n].clone(), id);
                proof {
                    lemma_no_members(before, here);
                }
            },
        }
        n = n + 1;
    }
    proof {
        assert(all.take(n as int) =~= all);
    }
    let count: usize = ids.len();
    let mut r: Vec<(String, Vec<usize>)> = Vec::new();
    let mut i: usize = 0;
    let ghost names = ids.listing();
    while i < count
        invariant
            i <= count == names.len(),
            names == ids.listing(),
            is_sorted(names),
            ids@ == dict(names),
            r@.len() == i,
            forall|l: Seq<char>|
                #[trigger] ids@.contains_key(l) ==> ids@[l] < buckets@.len() && buckets@[ids@[l] as int]@
                    == members(all, l),
            forall|k: int|
                0 <= k < i ==> listing_of(r@)[k].0 == #[trigger] names[k].0 && listing_of(r@)[k].1
                    == members(all, names[k].0),
        decreases count - i,
    {
        let ghost done = r@;
        proof {
            lemma_dict_at(names, i as int);
        }
        let id: usize = *ids.value_at(i);
        let bucket = buckets[id].clone();
        assert(bucket@ =~= buckets@[id as int]@);
        r.push((ids.key_at(i).clone(), bucket));
        assert forall|k: int| 0 <= k < i implies listing_of(r@)[k] == listing_of(done)[k] by {
        }
        i = i + 1;
    }
    proof {
        let out = listing_of(r@);
        assert forall|a: int, b: int| 0 <= a < b < out.len() implies crate::text::lex_lt(
            #[trigger] out[a].0,
            #[trigger] out[b].0,
        ) by {
            assert(crate::text::lex_lt(names[a].0, names[b].0));
        }
        assert forall|l: Seq<char>| has_key(out, l) == all.contains(l) && (has_key(out, l) ==> dict(
            out,
        )[l] == members(all, l)) by {
            assert(ids@.contains_key(l) == all.contains(l));
            if has_key(out, l) {
                let k = slot(out, l);
                assert(names[k].0 == l);
                assert(has_key(names, l));
            }
            if has_key(names, l) {
                let k = slot(names, l);
                assert(names[k].0 == l);
                assert(out[k].0 == l);
            }
        }
        assert(dict(out) =~= groups(all));
        lemma_sorted_listing(out);
    }
    r
}

/// The positions of a label lead to what carries the label, in the order of the row.
pub proof fn lemma_group_is_filter<T>(
    s: Seq<T>,
    labels: Seq<Seq<char>>,
    l: Seq<char>,
    p: spec_fn(T) -> bool,
)
    requires
        s.len() == labels.len() <= usize::MAX,
        forall|i: int| 0 <= i < s.len() ==> p(#[trigger] s[i]) == (labels[i] == l),
    ensures
        members(labels, l).map_values(|i: usize| s[i as int]) == s.filter(p),
    decreases s.len(),
{
    reveal(Seq::filter);
    let at = members(labels, l);
    if s.len() == 0 {
        assert(at.map_values(|i: usize| s[i as int]) =~= s.filter(p));
    } else {
        let t = s.drop_last();
        let less = labels.drop_last();
        assert forall|i: int| 0 <= i < t.len() implies p(#[trigger] t[i]) == (less[i] == l) by {
            assert(t[i] == s[i]);
        }
        lemma_group_is_filter(t, less, l, p);
        lemma_members(less, l);
        let before = members(less, l);
        assert(before.map_values(|i: usize| s[i as int]) =~= before.map_values(
            |i: usize| t[i as int],
        ));
        assert(p(s[s.len() - 1]) == (labels[labels.len() - 1] == l));
        if labels.last() == l {
            assert(at.map_values(|i: usize| s[i as int]) =~= before.map_values(
                |i: usize| s[i as int],
            ).push(s.last()));
        }
    }
}

} // verus!
