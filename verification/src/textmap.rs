//! A map from text to values that is walked in the order of its keys.

use vstd::prelude::*;

use crate::text::{
    lemma_lex_irreflexive, lemma_lex_total, lemma_lex_transitive, lex_lt, precedes, same_text,
    Replica,
};

verus! {

/// Whether the keys of a listing stand in strictly ascending order.
pub open spec fn is_sorted<W>(s: Seq<(Seq<char>, W)>) -> bool {
    forall|i: int, j: int| 0 <= i < j < s.len() ==> lex_lt(#[trigger] s[i].0, #[trigger] s[j].0)
}

/// Whether `k` is a key of the listing.
pub open spec fn has_key<W>(s: Seq<(Seq<char>, W)>, k: Seq<char>) -> bool {
    exists|i: int| 0 <= i < s.len() && #[trigger] s[i].0 == k
}

/// A position at which `k` is the key.
pub open spec fn slot<W>(s: Seq<(Seq<char>, W)>, k: Seq<char>) -> int {
    choose|i: int| 0 <= i < s.len() && #[trigger] s[i].0 == k
}

/// What stands under each key of the listing.
pub open spec fn dict<W>(s: Seq<(Seq<char>, W)>) -> Map<Seq<char>, W> {
    Map::new(|k: Seq<char>| has_key(s, k), |k: Seq<char>| s[slot(s, k)].1)
}

/// In a sorted listing each entry is what its key leads to.
pub proof fn lemma_dict_at<W>(s: Seq<(Seq<char>, W)>, i: int)
    requires
        is_sorted(s),
        0 <= i < s.len(),
    ensures
        dict(s).contains_key(s[i].0),
        dict(s)[s[i].0] == s[i].1,
{
    let k = s[i].0;
    assert(has_key(s, k));
    let j = slot(s, k);
    if j < i {
        assert(lex_lt(s[j].0, s[i].0));
        lemma_lex_irreflexive(k);
    } else if i < j {
        assert(lex_lt(s[i].0, s[j].0));
        lemma_lex_irreflexive(k);
    }
}

/// Two sorted listings with the same contents are the same listing: the order in which a map
/// is walked depends on nothing but what it holds.
pub proof fn lemma_listing_unique<W>(s: Seq<(Seq<char>, W)>, t: Seq<(Seq<char>, W)>)
    requires
        is_sorted(s),
        is_sorted(t),
        dict(s) == dict(t),
    ensures
        s == t,
    decreases s.len(),
{
    if s.len() == 0 {
        if t.len() > 0 {
            lemma_dict_at(t, 0);
            assert(has_key(s, t[0].0));
        }
        assert(s =~= t);
    } else {
        let n = s.len() - 1;
        lemma_dict_at(s, n);
        assert(has_key(t, s[n].0));
        let m = t.len() - 1;
        lemma_dict_at(t, m);
        assert(has_key(s, t[m].0));
        let a = choose|i: int| 0 <= i < t.len() && #[trigger] t[i].0 == s[n].0;
        let b = choose|i: int| 0 <= i < s.len() && #[trigger] s[i].0 == t[m].0;
        if a < m && b < n {
            assert(lex_lt(t[a].0, t[m].0));
            assert(lex_lt(s[b].0, s[n].0));
            lemma_lex_transitive(s[n].0, t[m].0, s[n].0);
            lemma_lex_irreflexive(s[n].0);
        } else if a < m {
            assert(lex_lt(t[a].0, t[m].0));
            lemma_lex_irreflexive(s[n].0);
        } else if b < n {
            assert(lex_lt(s[b].0, s[n].0));
            lemma_lex_irreflexive(s[n].0);
        }
        assert(s[n].0 == t[m].0);
        let s1 = s.drop_last();
        let t1 = t.drop_last();
        assert(dict(s1) =~= dict(t1)) by {
            assert forall|k: Seq<char>| has_key(s1, k) == has_key(t1, k) && (has_key(s1, k) ==> dict(s1)[k] == dict(t1)[k]) by {
                lemma_drop_last(s, k);
                lemma_drop_last(t, k);
                assert(has_key(s, k) == has_key(t, k)) by {
                    assert(dict(s).contains_key(k) == dict(t).contains_key(k));
                }
            }
        }
        lemma_listing_unique(s1, t1);
        assert(s =~= s1.push(s[n]));
        assert(t =~= t1.push(t[m]));
    }
}

/// The listing of a map: its keys in ascending order, each with what stands under it.
pub open spec fn sorted_listing<W>(m: Map<Seq<char>, W>) -> Seq<(Seq<char>, W)> {
    choose|s: Seq<(Seq<char>, W)>| is_sorted(s) && #[trigger] dict(s) == m
}

/// A sorted listing is the listing of what it holds.
pub proof fn lemma_sorted_listing<W>(s: Seq<(Seq<char>, W)>)
    requires
        is_sorted(s),
    ensures
        s == sorted_listing(dict(s)),
{
    lemma_listing_unique(s, sorted_listing(dict(s)));
}

proof fn lemma_drop_last<W>(s: Seq<(Seq<char>, W)>, k: Seq<char>)
    requires
        is_sorted(s),
        s.len() > 0,
    ensures
        has_key(s.drop_last(), k) <==> has_key(s, k) && k != s.last().0,
        has_key(s.drop_last(), k) ==> dict(s.drop_last())[k] == dict(s)[k],
{
    let s1 = s.drop_last();
    if has_key(s1, k) {
        let i = choose|i: int| 0 <= i < s1.len() && #[trigger] s1[i].0 == k;
        assert(s[i].0 == k);
        assert(lex_lt(s[i].0, s[s.len() - 1].0));
        lemma_lex_irreflexive(k);
        lemma_dict_at(s, i);
        lemma_dict_at(s1, i);
    }
    if has_key(s, k) && k != s.last().0 {
        let i = choose|i: int| 0 <= i < s.len() && #[trigger] s[i].0 == k;
        assert(s1[i].0 == k);
    }
}

/// The listing of a row of named values.
pub open spec fn listing_of<V: View>(e: Seq<(String, V)>) -> Seq<(Seq<char>, V::V)> {
    Seq::new(e.len(), |i: int| (e[i].0@, e[i].1@))
}

/// The listing with the value of position `i` replaced.
proof fn lemma_replaced<W>(s: Seq<(Seq<char>, W)>, i: int, w: W)
    requires
        is_sorted(s),
        0 <= i < s.len(),
    ensures
        is_sorted(s.update(i, (s[i].0, w))),
        dict(s.update(i, (s[i].0, w))) == dict(s).insert(s[i].0, w),
{
    let t = s.update(i, (s[i].0, w));
    assert(is_sorted(t)) by {
        assert forall|a: int, b: int| 0 <= a < b < t.len() implies lex_lt(
            #[trigger] t[a].0,
            #[trigger] t[b].0,
        ) by {
            assert(lex_lt(s[a].0, s[b].0));
        }
    }
    assert(dict(t) =~= dict(s).insert(s[i].0, w)) by {
        lemma_dict_at(t, i);
        assert forall|k: Seq<char>| has_key(t, k) == (has_key(s, k) || k == s[i].0) by {
            if has_key(t, k) {
                let j = choose|j: int| 0 <= j < t.len() && #[trigger] t[j].0 == k;
                assert(s[j].0 == k);
            }
            if has_key(s, k) {
                let j = choose|j: int| 0 <= j < s.len() && #[trigger] s[j].0 == k;
                assert(t[j].0 == k);
            }
        }
        assert forall|k: Seq<char>| has_key(s, k) && k != s[i].0 implies dict(t)[k] == dict(s)[k] by {
            let j = choose|j: int| 0 <= j < s.len() && #[trigger] s[j].0 == k;
            lemma_dict_at(s, j);
            lemma_dict_at(t, j);
        }
    }
}

/// The listing with a new key put where the order wants it.
proof fn lemma_inserted<W>(s: Seq<(Seq<char>, W)>, i: int, k: Seq<char>, w: W)
    requires
        is_sorted(s),
        0 <= i <= s.len(),
        forall|j: int| 0 <= j < i ==> lex_lt(#[trigger] s[j].0, k),
        forall|j: int| i <= j < s.len() ==> lex_lt(k, #[trigger] s[j].0),
    ensures
        is_sorted(s.insert(i, (k, w))),
        dict(s.insert(i, (k, w))) == dict(s).insert(k, w),
        !has_key(s, k),
{
    let t = s.insert(i, (k, w));
    assert(is_sorted(t)) by {
        assert forall|a: int, b: int| 0 <= a < b < t.len() implies lex_lt(
            #[trigger] t[a].0,
            #[trigger] t[b].0,
        ) by {
            let a0 = if a < i { a } else { a - 1 };
            let b0 = if b < i { b } else { b - 1 };
            if a != i && b != i {
                assert(lex_lt(s[a0].0, s[b0].0));
            } else if a == i {
                assert(t[b].0 == s[b0].0);
            } else {
                assert(t[a].0 == s[a0].0);
            }
        }
    }
    assert(!has_key(s, k)) by {
        if has_key(s, k) {
            let j = choose|j: int| 0 <= j < s.len() && #[trigger] s[j].0 == k;
            lemma_lex_irreflexive(k);
            assert(lex_lt(s[j].0, k) || lex_lt(k, s[j].0));
        }
    }
    assert(dict(t) =~= dict(s).insert(k, w)) by {
        lemma_dict_at(t, i);
        assert forall|q: Seq<char>| has_key(t, q) == (has_key(s, q) || q == k) by {
            if has_key(t, q) {
                let j = choose|j: int| 0 <= j < t.len() && #[trigger] t[j].0 == q;
                if j < i {
                    assert(s[j].0 == q);
                } else if j > i {
                    assert(s[j - 1].0 == q);
                }
            }
            if has_key(s, q) {
                let j = choose|j: int| 0 <= j < s.len() && #[trigger] s[j].0 == q;
                let j1 = if j < i { j } else { j + 1 };
                assert(t[j1].0 == q);
            }
            if q == k {
                assert(t[i].0 == q);
            }
        }
        assert forall|q: Seq<char>| has_key(s, q) && q != k implies dict(t)[q] == dict(s)[q] by {
            let j = choose|j: int| 0 <= j < s.len() && #[trigger] s[j].0 == q;
            let j1 = if j < i { j } else { j + 1 };
            lemma_dict_at(s, j);
            assert(t[j1] == s[j]);
            lemma_dict_at(t, j1);
        }
    }
}

proof fn lemma_place<W>(s: Seq<(Seq<char>, W)>, k: Seq<char>) -> (i: int)
    requires
        is_sorted(s),
        !has_key(s, k),
    ensures
        0 <= i <= s.len(),
        forall|j: int| 0 <= j < i ==> lex_lt(#[trigger] s[j].0, k),
        forall|j: int| i <= j < s.len() ==> lex_lt(k, #[trigger] s[j].0),
    decreases s.len(),
{
    if s.len() == 0 {
        0
    } else {
        let last = s.last().0;
        lemma_lex_total(last, k);
        assert(s[s.len() - 1].0 == last);
        if lex_lt(last, k) {
            assert forall|j: int| 0 <= j < s.len() implies lex_lt(#[trigger] s[j].0, k) by {
                if j < s.len() - 1 {
                    assert(lex_lt(s[j].0, s[s.len() - 1].0));
                    lemma_lex_transitive(s[j].0, last, k);
                }
            }
            s.len() as int
        } else {
            assert forall|j: int| 0 <= j < s.drop_last().len() implies #[trigger] s.drop_last()[j].0
                != k by {
                assert(s[j].0 != k);
            }
            let i = lemma_place(s.drop_last(), k);
            assert forall|j: int| 0 <= j < i implies lex_lt(#[trigger] s[j].0, k) by {
                assert(s.drop_last()[j] == s[j]);
            }
            assert forall|j: int| i <= j < s.len() implies lex_lt(k, #[trigger] s[j].0) by {
                if j < s.len() - 1 {
                    assert(s.drop_last()[j] == s[j]);
                }
            }
            i
        }
    }
}

/// A listing holds no more than finitely many keys.
pub proof fn lemma_dict_finite<W>(s: Seq<(Seq<char>, W)>)
    ensures
        dict(s).dom().finite(),
{
    let keys = s.map_values(|e: (Seq<char>, W)| e.0);
    vstd::seq_lib::seq_to_set_is_finite(keys);
    assert forall|k: Seq<char>| #[trigger] dict(s).dom().contains(k) implies keys.to_set().contains(
        k,
    ) by {
        let i = slot(s, k);
        assert(keys[i] == k);
    }
    vstd::set_lib::lemma_set_subset_finite(keys.to_set(), dict(s).dom());
}

/// Every finite map has a listing.
pub proof fn lemma_has_listing<W>(m: Map<Seq<char>, W>)
    requires
        m.dom().finite(),
    ensures
        is_sorted(sorted_listing(m)),
        dict(sorted_listing(m)) == m,
{
    let s = lemma_some_listing(m);
    assert(dict(s) == m);
}

proof fn lemma_some_listing<W>(m: Map<Seq<char>, W>) -> (s: Seq<(Seq<char>, W)>)
    requires
        m.dom().finite(),
    ensures
        is_sorted(s),
        dict(s) == m,
    decreases m.dom().len(),
{
    if m.dom().len() == 0 {
        let s = Seq::<(Seq<char>, W)>::empty();
        assert(dict(s) =~= m);
        s
    } else {
        let k = m.dom().choose();
        let rest = m.remove(k);
        let t = lemma_some_listing(rest);
        if has_key(t, k) {
            assert(dict(t).contains_key(k));
        }
        let i = lemma_place(t, k);
        lemma_inserted(t, i, k, m[k]);
        assert(rest.insert(k, m[k]) =~= m);
        t.insert(i, (k, m[k]))
    }
}

/// Where `k` stands in a sorted row, or where it would have to be put.
fn locate<V: View>(e: &Vec<(String, V)>, k: &str) -> (r: (usize, bool))
    requires
        is_sorted(listing_of(e@)),
    ensures
        r.0 <= e.len(),
        r.1 == has_key(listing_of(e@), k@),
        r.1 ==> r.0 < e.len() && listing_of(e@)[r.0 as int].0 == k@,
        !r.1 ==> (forall|j: int|
            0 <= j < r.0 ==> lex_lt(#[trigger] listing_of(e@)[j].0, k@)) && (forall|j: int|
            r.0 <= j < e.len() ==> lex_lt(k@, #[trigger] listing_of(e@)[j].0)),
{
    let ghost s = listing_of(e@);
    let mut lo: usize = 0;
    let mut hi: usize = e.len();
    while lo < hi
        invariant
            lo <= hi <= e.len(),
            s == listing_of(e@),
            is_sorted(s),
            forall|j: int| 0 <= j < lo ==> lex_lt(#[trigger] s[j].0, k@),
            forall|j: int| hi <= j < s.len() ==> !lex_lt(#[trigger] s[j].0, k@),
        decreases hi - lo,
    {
        let mid = lo + (hi - lo) / 2;
        assert(s[mid as int].0 == e@[mid as int].0@);
        if precedes(e[mid].0.as_str(), k) {
            assert forall|j: int| 0 <= j < mid + 1 implies lex_lt(#[trigger] s[j].0, k@) by {
                if j < mid {
                    assert(lex_lt(s[j].0, s[mid as int].0));
                    lemma_lex_transitive(s[j].0, s[mid as int].0, k@);
                }
            }
            lo = mid + 1;
        } else {
            assert forall|j: int| mid <= j < s.len() implies !lex_lt(#[trigger] s[j].0, k@) by {
                if j > mid && lex_lt(s[j].0, k@) {
                    assert(lex_lt(s[mid as int].0, s[j].0));
                    lemma_lex_transitive(s[mid as int].0, s[j].0, k@);
                }
            }
            hi = mid;
        }
    }
    if lo < e.len() && same_text(e[lo].0.as_str(), k) {
        assert(s[lo as int].0 == k@);
        (lo, true)
    } else {
        proof {
            assert forall|j: int| lo <= j < s.len() implies lex_lt(k@, #[trigger] s[j].0) by {
                lemma_lex_total(k@, s[lo as int].0);
                assert(s[lo as int].0 == e@[lo as int].0@);
                if j > lo {
                    assert(lex_lt(s[lo as int].0, s[j].0));
                    lemma_lex_transitive(k@, s[lo as int].0, s[j].0);
                }
            }
            if has_key(s, k@) {
                let j = choose|j: int| 0 <= j < s.len() && #[trigger] s[j].0 == k@;
                lemma_lex_irreflexive(k@);
                assert(lex_lt(s[j].0, k@) || lex_lt(k@, s[j].0));
            }
        }
        (lo, false)
    }
}

/// A map from text to values. Its keys are kept in ascending order.
#[derive(Debug)]
pub struct TextMap<V: View> {
    entries: Vec<(String, V)>,
}

impl<V: View> View for TextMap<V> {
    type V = Map<Seq<char>, V::V>;

    open spec fn view(&self) -> Map<Seq<char>, V::V> {
        dict(self.listing())
    }
}

impl<V: View> TextMap<V> {
    /// The keys with their values, in ascending order of the keys.
    pub closed spec fn listing(&self) -> Seq<(Seq<char>, V::V)> {
        listing_of(self.entries@)
    }

    #[verifier::type_invariant]
    spec fn ordered(self) -> bool {
        is_sorted(listing_of(self.entries@))
    }

    /// The empty map.
    pub fn new() -> (r: Self)
        ensures
            r.listing() == Seq::<(Seq<char>, V::V)>::empty(),
            r@ == Map::<Seq<char>, V::V>::empty(),
    {
        let r = TextMap { entries: Vec::new() };
        assert(r.listing() =~= Seq::<(Seq<char>, V::V)>::empty());
        assert(r@ =~= Map::<Seq<char>, V::V>::empty());
        r
    }

    /// How many keys there are.
    pub fn len(&self) -> (r: usize)
        ensures
            r == self.listing().len(),
            is_sorted(self.listing()),
            self.listing() == sorted_listing(self@),
    {
        proof {
            use_type_invariant(self);
            lemma_sorted_listing(self.listing());
        }
        self.entries.len()
    }

    /// The key at position `i` of the listing.
    pub fn key_at(&self, i: usize) -> (r: &String)
        requires
            i < self.listing().len(),
        ensures
            r@ == self.listing()[i as int].0,
    {
        &self.entries[i].0
    }

    /// The value at position `i` of the listing.
    pub fn value_at(&self, i: usize) -> (r: &V)
        requires
            i < self.listing().len(),
        ensures
            r@ == self.listing()[i as int].1,
    {
        &self.entries[i].1
    }

    /// What stands under `k`.
    pub fn get(&self, k: &str) -> (r: Option<&V>)
        ensures
            r is Some <==> self@.contains_key(k@),
            r matches Some(v) ==> v@ == self@[k@],
    {
        proof {
            use_type_invariant(self);
        }
        let (i, found) = locate(&self.entries, k);
        if found {
            proof {
                lemma_dict_at(self.listing(), i as int);
            }
            Some(&self.entries[i].1)
        } else {
            None
        }
    }

    /// Puts `v` under `k`, in place of what stood there.
    pub fn insert(&mut self, k: String, v: V)
        ensures
            final(self)@ == old(self)@.insert(k@, v@),
    {
        proof {
            use_type_invariant(&*self);
        }
        let mut e: Vec<(String, V)> = Vec::new();
        std::mem::swap(&mut e, &mut self.entries);
        let ghost s = listing_of(e@);
        let ghost kv = k@;
        let ghost vv = v@;
        let (i, found) = locate(&e, k.as_str());
        if found {
            e.set(i, (k, v));
            proof {
                lemma_replaced(s, i as int, vv);
                assert(listing_of(e@) =~= s.update(i as int, (s[i as int].0, vv)));
            }
        } else {
            e.insert(i, (k, v));
            proof {
                lemma_inserted(s, i as int, kv, vv);
                assert(listing_of(e@) =~= s.insert(i as int, (kv, vv)));
            }
        }
        self.entries = e;
    }
}

impl<V: Replica> Clone for TextMap<V> {
    fn clone(&self) -> (r: TextMap<V>)
        ensures
            r@ == self@,
    {
        self.copy()
    }
}

impl<V: Replica> Replica for TextMap<V> {
    fn copy(&self) -> (r: TextMap<V>) {
        proof {
            use_type_invariant(self);
        }
        let mut e: Vec<(String, V)> = Vec::new();
        let mut i: usize = 0;
        while i < self.entries.len()
            invariant
                i <= self.entries@.len(),
                listing_of(e@) =~= listing_of(self.entries@).take(i as int),
            decreases self.entries@.len() - i,
        {
            let ghost done = e@;
            let v = self.entries[i].1.copy();
            e.push((self.entries[i].0.clone(), v));
            assert(listing_of(e@) =~= listing_of(done).push(listing_of(self.entries@)[i as int]));
            i = i + 1;
        }
        assert(listing_of(e@) =~= listing_of(self.entries@));
        TextMap { entries: e }
    }
}

} // verus!
