//! A map of bounded size that forgets what was used least recently.

use vstd::prelude::*;

use crate::seqs::{lemma_views_push, views};

verus! {

/// A key that can be compared for equality of its view.
pub trait CacheKey: View + Sized {
    fn same_key(&self, other: &Self) -> (r: bool)
        ensures
            r == (self@ == other@),
    ;
}

/// Entries from the least to the most recently used one. Looking an entry up
/// walks the list, so the cost grows with the number of entries.
pub struct LruMap<K: CacheKey, V: View> {
    cap: usize,
    entries: Vec<(K, V)>,
}

impl<K: CacheKey, V: View> View for LruMap<K, V> {
    type V = Seq<(K::V, V::V)>;

    closed spec fn view(&self) -> Seq<(K::V, V::V)> {
        views(self.entries@)
    }
}

/// The place of the entry under `k`; -1 where there is none.
pub open spec fn position<K, V>(s: Seq<(K, V)>, k: K) -> int
    decreases s.len(),
{
    if s.len() == 0 {
        -1
    } else if s.last().0 == k {
        s.len() - 1
    } else {
        position(s.drop_last(), k)
    }
}

pub open spec fn has_key<K, V>(s: Seq<(K, V)>, k: K) -> bool {
    position(s, k) >= 0
}

pub open spec fn lookup<K, V>(s: Seq<(K, V)>, k: K) -> Option<V> {
    if has_key(s, k) {
        Some(s[position(s, k)].1)
    } else {
        None
    }
}

/// The entries without the one under `k`.
pub open spec fn without<K, V>(s: Seq<(K, V)>, k: K) -> Seq<(K, V)> {
    if has_key(s, k) {
        s.remove(position(s, k))
    } else {
        s
    }
}

/// The entries with the one under `k` as the most recently used.
pub open spec fn touched<K, V>(s: Seq<(K, V)>, k: K) -> Seq<(K, V)> {
    if has_key(s, k) {
        without(s, k).push(s[position(s, k)])
    } else {
        s
    }
}

/// The entries with `v` under `k` as the most recently used; where there are
/// more than `cap`, the least recently used one leaves.
pub open spec fn stored<K, V>(s: Seq<(K, V)>, cap: int, k: K, v: V) -> Seq<(K, V)> {
    let all = without(s, k).push((k, v));
    if all.len() > cap {
        all.skip(1)
    } else {
        all
    }
}

/// No two entries stand under one key.
pub open spec fn keys_distinct<K, V>(s: Seq<(K, V)>) -> bool {
    forall|i: int, j: int| 0 <= i < j < s.len() ==> (#[trigger] s[i]).0 != (#[trigger] s[j]).0
}

pub proof fn lemma_position<K, V>(s: Seq<(K, V)>, k: K)
    ensures
        -1 <= position(s, k) < s.len(),
        has_key(s, k) ==> s[position(s, k)].0 == k,
        has_key(s, k) <==> exists|i: int| 0 <= i < s.len() && (#[trigger] s[i]).0 == k,
        forall|i: int| position(s, k) < i < s.len() ==> (#[trigger] s[i]).0 != k,
    decreases s.len(),
{
    if s.len() > 0 {
        let m = s.drop_last();
        lemma_position(m, k);
        if s.last().0 == k {
            assert(s[s.len() - 1].0 == k);
        } else {
            if has_key(m, k) {
                assert(s[position(m, k)] == m[position(m, k)]);
            }
            assert forall|i: int| position(s, k) < i < s.len() implies (#[trigger] s[i]).0 != k by {
                if i < m.len() {
                    assert(m[i] == s[i]);
                }
            }
            if exists|i: int| 0 <= i < s.len() && (#[trigger] s[i]).0 == k {
                let i = choose|i: int| 0 <= i < s.len() && (#[trigger] s[i]).0 == k;
                assert(m[i] == s[i]);
            }
        }
    }
}

/// With distinct keys, an entry stands where its key is found.
pub proof fn lemma_position_unique<K, V>(s: Seq<(K, V)>, i: int)
    requires
        keys_distinct(s),
        0 <= i < s.len(),
    ensures
        position(s, s[i].0) == i,
{
    lemma_position(s, s[i].0);
    let p = position(s, s[i].0);
    if p != i {
        if p < i {
            assert(s[i].0 != s[i].0);
        } else {
            assert(s[i].0 != s[p].0);
        }
    }
}

/// Removing an entry leaves every other one, and none under its key.
pub proof fn lemma_without<K, V>(s: Seq<(K, V)>, k: K)
    requires
        keys_distinct(s),
    ensures
        keys_distinct(without(s, k)),
        !has_key(without(s, k), k),
        forall|x: K| x != k ==> #[trigger] lookup(without(s, k), x) == lookup(s, x),
        without(s, k).len() == s.len() - if has_key(s, k) {
            1int
        } else {
            0
        },
{
    lemma_position(s, k);
    let w = without(s, k);
    lemma_position(w, k);
    if has_key(s, k) {
        let p = position(s, k);
        assert forall|i: int, j: int| 0 <= i < j < w.len() implies (#[trigger] w[i]).0 != (
        #[trigger] w[j]).0 by {
            let a = if i < p {
                i
            } else {
                i + 1
            };
            let b = if j < p {
                j
            } else {
                j + 1
            };
            assert(w[i] == s[a]);
            assert(w[j] == s[b]);
        }
        assert forall|i: int| 0 <= i < w.len() implies (#[trigger] w[i]).0 != k by {
            if i < p {
                assert(w[i] == s[i]);
                assert(s[i].0 != s[p].0);
            } else {
                assert(w[i] == s[i + 1]);
                assert(s[p].0 != s[i + 1].0);
            }
        }
        assert forall|x: K| x != k implies #[trigger] lookup(w, x) == lookup(s, x) by {
            lemma_position(s, x);
            lemma_position(w, x);
            if has_key(s, x) {
                let q = position(s, x);
                let n = if q < p {
                    q
                } else {
                    q - 1
                };
                assert(w[n] == s[q]);
                lemma_position_unique(w, n);
            } else if has_key(w, x) {
                let n = position(w, x);
                let q = if n < p {
                    n
                } else {
                    n + 1
                };
                assert(w[n] == s[q]);
            }
        }
    }
}

proof fn lemma_push_fresh<K, V>(s: Seq<(K, V)>, k: K, v: V)
    requires
        keys_distinct(s),
        !has_key(s, k),
    ensures
        keys_distinct(s.push((k, v))),
        lookup(s.push((k, v)), k) == Some(v),
        forall|x: K| x != k ==> #[trigger] lookup(s.push((k, v)), x) == lookup(s, x),
{
    let t = s.push((k, v));
    lemma_position(s, k);
    assert forall|i: int, j: int| 0 <= i < j < t.len() implies (#[trigger] t[i]).0 != (
    #[trigger] t[j]).0 by {
        assert(t[i] == s[i]);
        if j < s.len() {
            assert(t[j] == s[j]);
        }
    }
    assert(t.drop_last() =~= s);
    assert forall|x: K| x != k implies #[trigger] lookup(t, x) == lookup(s, x) by {
        lemma_position(s, x);
        assert(position(t, x) == position(s, x));
    }
}

proof fn lemma_skip_first<K, V>(s: Seq<(K, V)>)
    requires
        keys_distinct(s),
        s.len() > 0,
    ensures
        keys_distinct(s.skip(1)),
        forall|x: K| x != s[0].0 ==> #[trigger] lookup(s.skip(1), x) == lookup(s, x),
{
    let t = s.skip(1);
    assert forall|i: int, j: int| 0 <= i < j < t.len() implies (#[trigger] t[i]).0 != (
    #[trigger] t[j]).0 by {
        assert(t[i] == s[i + 1]);
        assert(t[j] == s[j + 1]);
    }
    assert forall|x: K| x != s[0].0 implies #[trigger] lookup(t, x) == lookup(s, x) by {
        lemma_position(s, x);
        lemma_position(t, x);
        if has_key(s, x) {
            let q = position(s, x);
            assert(t[q - 1] == s[q]);
            lemma_position_unique(t, q - 1);
        } else if has_key(t, x) {
            let q = position(t, x);
            assert(t[q] == s[q + 1]);
        }
    }
}

/// What was stored last is found again; the bound holds; and of the others
/// only the least recently used one can be gone, and only from a full map.
pub proof fn law_store_then_find<K, V>(s: Seq<(K, V)>, cap: int, k: K, v: V)
    requires
        keys_distinct(s),
        s.len() <= cap,
        cap >= 1,
    ensures
        lookup(stored(s, cap, k, v), k) == Some(v),
        keys_distinct(stored(s, cap, k, v)),
        stored(s, cap, k, v).len() <= cap,
        forall|x: K|
            x != k && (has_key(s, k) || s.len() < cap || x != s[0].0) ==> #[trigger] lookup(
                stored(s, cap, k, v),
                x,
            ) == lookup(s, x),
{
    let w = without(s, k);
    lemma_without(s, k);
    lemma_push_fresh(w, k, v);
    let all = w.push((k, v));
    if all.len() > cap {
        lemma_skip_first(all);
        assert(!has_key(s, k));
        assert(w == s);
        assert(all[0] == s[0]);
        lemma_position(s, k);
        assert(s[0].0 != k);
        assert forall|x: K| x != k && x != s[0].0 implies #[trigger] lookup(
            stored(s, cap, k, v),
            x,
        ) == lookup(s, x) by {
            assert(lookup(all.skip(1), x) == lookup(all, x));
            assert(lookup(all, x) == lookup(s, x));
        }
    } else {
        assert forall|x: K| x != k implies #[trigger] lookup(stored(s, cap, k, v), x) == lookup(
            s,
            x,
        ) by {
            assert(lookup(all, x) == lookup(w, x));
            assert(lookup(w, x) == lookup(s, x));
        }
    }
}

/// Using an entry changes only the order in which entries are forgotten.
pub proof fn law_touch_keeps_the_entries<K, V>(s: Seq<(K, V)>, k: K)
    requires
        keys_distinct(s),
    ensures
        keys_distinct(touched(s, k)),
        touched(s, k).len() == s.len(),
        forall|x: K| #[trigger] lookup(touched(s, k), x) == lookup(s, x),
        has_key(s, k) ==> touched(s, k).last().0 == k,
{
    if has_key(s, k) {
        lemma_position(s, k);
        lemma_without(s, k);
        let e = s[position(s, k)];
        lemma_push_fresh(without(s, k), k, e.1);
        assert(e == (k, e.1));
        assert forall|x: K| #[trigger] lookup(touched(s, k), x) == lookup(s, x) by {
            if x != k {
                assert(lookup(without(s, k).push((k, e.1)), x) == lookup(without(s, k), x));
                assert(lookup(without(s, k), x) == lookup(s, x));
            }
        }
    }
}

impl<K: CacheKey, V: View> LruMap<K, V> {
    /// The most entries that the map holds.
    pub closed spec fn capacity(&self) -> int {
        self.cap as int
    }

    #[verifier::type_invariant]
    spec fn well_formed(self) -> bool {
        &&& self.cap >= 1
        &&& self.entries@.len() <= self.cap
        &&& keys_distinct(views(self.entries@))
    }

    pub fn new(cap: usize) -> (r: Self)
        requires
            cap >= 1,
        ensures
            r@ == Seq::<(K::V, V::V)>::empty(),
            r.capacity() == cap,
    {
        let entries: Vec<(K, V)> = Vec::new();
        assert(views(entries@) =~= Seq::<(K::V, V::V)>::empty());
        LruMap { cap, entries }
    }

    pub fn len(&self) -> (r: usize)
        ensures
            r == self@.len(),
            r <= self.capacity(),
            keys_distinct(self@),
    {
        proof {
            use_type_invariant(self);
        }
        self.entries.len()
    }

    fn find(&self, k: &K) -> (r: Option<usize>)
        ensures
            r matches Some(i) ==> i < self.entries@.len() && position(self@, k@) == i,
            r is None ==> !has_key(self@, k@),
    {
        let mut i: usize = self.entries.len();
        assert(self@.take(i as int) =~= self@);
        while i > 0
            invariant
                i <= self.entries@.len(),
                position(self@, k@) == position(self@.take(i as int), k@),
            decreases i,
        {
            proof {
                assert(self@.take(i as int).drop_last() =~= self@.take(i - 1));
                assert(self@.take(i as int).last() == self@[i - 1]);
                assert(self@[i - 1] == self.entries@[i - 1]@);
            }
            if self.entries[i - 1].0.same_key(k) {
                return Some(i - 1);
            }
            i = i - 1;
        }
        None
    }

    pub fn contains_key(&self, k: &K) -> (r: bool)
        ensures
            r == has_key(self@, k@),
    {
        self.find(k).is_some()
    }

    /// The value under `k`, without counting as a use of it.
    pub fn peek(&self, k: &K) -> (r: Option<&V>)
        ensures
            r matches Some(v) ==> lookup(self@, k@) == Some(v@),
            r is None ==> lookup(self@, k@) is None,
    {
        match self.find(k) {
            Some(i) => {
                assert(self@[i as int] == self.entries@[i as int]@);
                Some(&self.entries[i].1)
            },
            None => None,
        }
    }

    /// Makes the entry under `k` the most recently used one, if it is there.
    pub fn touch(&mut self, k: &K) -> (r: bool)
        ensures
            final(self)@ == touched(old(self)@, k@),
            final(self).capacity() == old(self).capacity(),
            r == has_key(old(self)@, k@),
    {
        proof {
            use_type_invariant(&*self);
        }
        match self.find(k) {
            Some(i) => {
                let ghost before = views(self.entries@);
                let mut entries: Vec<(K, V)> = Vec::new();
                std::mem::swap(&mut entries, &mut self.entries);
                let e = entries.remove(i);
                proof {
                    assert(views(entries@) =~= before.remove(i as int));
                    lemma_views_push(entries@, e);
                    law_touch_keeps_the_entries(before, k@);
                }
                entries.push(e);
                self.entries = entries;
                true
            },
            None => false,
        }
    }

    /// Puts `v` under `k` as the most recently used entry.
    pub fn put(&mut self, k: K, v: V)
        ensures
            final(self)@ == stored(old(self)@, old(self).capacity(), k@, v@),
            final(self).capacity() == old(self).capacity(),
    {
        proof {
            use_type_invariant(&*self);
        }
        let found = self.find(&k);
        let ghost before = views(self.entries@);
        let mut entries: Vec<(K, V)> = Vec::new();
        std::mem::swap(&mut entries, &mut self.entries);
        if let Some(i) = found {
            let _ = entries.remove(i);
            assert(views(entries@) =~= before.remove(i as int));
        }
        assert(views(entries@) == without(before, k@));
        proof {
            law_store_then_find(before, self.cap as int, k@, v@);
            lemma_without(before, k@);
            lemma_views_push(entries@, (k, v));
        }
        entries.push((k, v));
        if entries.len() > self.cap {
            let ghost full = entries@;
            let _ = entries.remove(0);
            assert(views(entries@) =~= views(full).skip(1));
        }
        self.entries = entries;
    }

    /// Takes the entry under `k` out.
    pub fn pop(&mut self, k: &K) -> (r: Option<V>)
        ensures
            final(self)@ == without(old(self)@, k@),
            final(self).capacity() == old(self).capacity(),
            r matches Some(v) ==> lookup(old(self)@, k@) == Some(v@),
            r is None ==> lookup(old(self)@, k@) is None,
    {
        proof {
            use_type_invariant(&*self);
        }
        match self.find(k) {
            Some(i) => {
                let ghost before = views(self.entries@);
                let mut entries: Vec<(K, V)> = Vec::new();
                std::mem::swap(&mut entries, &mut self.entries);
                let ghost all = entries@;
                let e = entries.remove(i);
                proof {
                    assert(views(entries@) =~= before.remove(i as int));
                    assert(before[i as int] == all[i as int]@);
                    lemma_without(before, k@);
                }
                self.entries = entries;
                Some(e.1)
            },
            None => None,
        }
    }
}

/// What is looked up is an entry under that very key; there is none exactly if no entry
/// has the key.
pub proof fn law_what_is_looked_up_is_there<K, V>(s: Seq<(K, V)>, k: K, i: int)
    requires
        keys_distinct(s),
    ensures
        lookup(s, k) matches Some(v) ==> s.contains((k, v)),
        0 <= i < s.len() ==> lookup(s, s[i].0) == Some(s[i].1),
        lookup(s, k) is Some <==> exists|j: int| 0 <= j < s.len() && (#[trigger] s[j]).0 == k,
{
    lemma_position(s, k);
    if has_key(s, k) {
        let p = position(s, k);
        assert(s[p] == (k, s[p].1));
    }
    if 0 <= i < s.len() {
        lemma_position(s, s[i].0);
        let p = position(s, s[i].0);
        if p < i {
            assert(s[i].0 != s[i].0);
        } else if p > i {
            assert(s[i].0 != s[p].0);
        }
    }
}

/// Removing a key takes out its entry and no other.
pub proof fn law_removing_takes_one_entry<K, V>(s: Seq<(K, V)>, k: K)
    requires
        keys_distinct(s),
    ensures
        lookup(without(s, k), k) is None,
        keys_distinct(without(s, k)),
        without(s, k).len() == s.len() - if lookup(s, k) is Some {
            1int
        } else {
            0
        },
        forall|x: K| x != k ==> #[trigger] lookup(without(s, k), x) == lookup(s, x),
{
    lemma_without(s, k);
}

/// Storing makes the entry the most recently used one. Where that would be one too many,
/// the least recently used other one goes, and only that one; the others keep their order.
pub proof fn law_the_oldest_entry_makes_room<K, V>(s: Seq<(K, V)>, cap: int, k: K, v: V)
    requires
        keys_distinct(s),
        s.len() <= cap,
        cap >= 1,
    ensures
        stored(s, cap, k, v).last() == (k, v),
        lookup(s, k) is None && s.len() == cap ==> stored(s, cap, k, v) == s.skip(1).push((k, v)),
        lookup(s, k) is None && s.len() < cap ==> stored(s, cap, k, v) == s.push((k, v)),
        lookup(s, k) is Some ==> stored(s, cap, k, v).len() == s.len(),
{
    lemma_position(s, k);
    if !has_key(s, k) && s.len() == cap {
        assert(s.push((k, v)).skip(1) =~= s.skip(1).push((k, v)));
    }
}

} // verus!
