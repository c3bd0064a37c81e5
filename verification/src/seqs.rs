//! Vectors seen through the views of their elements.

use vstd::prelude::*;

verus! {

/// The views of the elements, in order.
pub open spec fn views<T: View>(s: Seq<T>) -> Seq<T::V> {
    Seq::new(s.len(), |i: int| s[i]@)
}

/// Some element satisfies `p`.
pub open spec fn any_of<V>(s: Seq<V>, p: spec_fn(V) -> bool) -> bool {
    exists|i: int| 0 <= i < s.len() && p(#[trigger] s[i])
}

/// Every element satisfies `p`.
pub open spec fn all_of<V>(s: Seq<V>, p: spec_fn(V) -> bool) -> bool {
    forall|i: int| 0 <= i < s.len() ==> p(#[trigger] s[i])
}

/// A type whose values can be copied so that the view stays the same.
pub trait Replicate: View + Sized {
    fn replicate(&self) -> (r: Self)
        ensures
            r@ == self@,
    ;
}

pub(crate) proof fn lemma_views_push<T: View>(s: Seq<T>, x: T)
    ensures
        views(s.push(x)) == views(s).push(x@),
{
    assert(views(s.push(x)) =~= views(s).push(x@));
}

pub(crate) proof fn lemma_filter_step<V>(s: Seq<V>, k: int, p: spec_fn(V) -> bool)
    requires
        0 <= k < s.len(),
    ensures
        s.take(k + 1).filter(p) == if p(s[k]) {
            s.take(k).filter(p).push(s[k])
        } else {
            s.take(k).filter(p)
        },
{
    reveal(Seq::filter);
    let next = s.take(k + 1);
    assert(next.drop_last() =~= s.take(k));
    assert(next.last() == s[k]);
}

pub(crate) proof fn lemma_filter_none<V>(s: Seq<V>, p: spec_fn(V) -> bool)
    ensures
        s.take(0).filter(p) == Seq::<V>::empty(),
{
    reveal(Seq::filter);
    assert(s.take(0) =~= Seq::<V>::empty());
}

/// What a filter lets through satisfies the predicate and was there before;
/// nothing that satisfies it is lost.
pub proof fn lemma_filter_holds<V>(s: Seq<V>, p: spec_fn(V) -> bool)
    ensures
        all_of(s.filter(p), p),
        forall|i: int| 0 <= i < s.filter(p).len() ==> s.contains(#[trigger] s.filter(p)[i]),
        forall|i: int| 0 <= i < s.len() && p(#[trigger] s[i]) ==> s.filter(p).contains(s[i]),
        any_of(s, p) <==> s.filter(p).len() > 0,
        s.filter(p).len() <= s.len(),
    decreases s.len(),
{
    reveal(Seq::filter);
    if s.len() > 0 {
        let m = s.drop_last();
        lemma_filter_holds(m, p);
        let out = s.filter(p);
        let inner = m.filter(p);
        assert forall|i: int| 0 <= i < out.len() implies p(#[trigger] out[i]) && s.contains(
            out[i],
        ) by {
            if i < inner.len() {
                assert(out[i] == inner[i]);
                assert(m.contains(inner[i]));
                let k = choose|k: int| 0 <= k < m.len() && m[k] == inner[i];
                assert(s[k] == out[i]);
            } else {
                assert(s[s.len() - 1] == out[i]);
            }
        }
        assert forall|i: int| 0 <= i < s.len() && p(#[trigger] s[i]) implies out.contains(
            s[i],
        ) by {
            if i < m.len() {
                assert(m[i] == s[i]);
                assert(inner.contains(m[i]));
                let k = choose|k: int| 0 <= k < inner.len() && inner[k] == m[i];
                assert(out[k] == s[i]);
            } else {
                assert(out[out.len() - 1] == s[i]);
            }
        }
        if any_of(s, p) {
            let k = choose|k: int| 0 <= k < s.len() && p(#[trigger] s[k]);
            assert(out.contains(s[k]));
        }
        if out.len() > 0 {
            assert(p(out[0]) && s.contains(out[0]));
            let k = choose|k: int| 0 <= k < s.len() && s[k] == out[0];
            assert(p(s[k]));
        }
    }
}

/// Copies of all the elements.
pub fn replicate_all<T: Replicate>(v: &Vec<T>) -> (r: Vec<T>)
    ensures
        views(r@) == views(v@),
{
    let mut r: Vec<T> = Vec::new();
    let mut i: usize = 0;
    while i < v.len()
        invariant
            i <= v.len(),
            views(r@) =~= views(v@).take(i as int),
        decreases v.len() - i,
    {
        let ghost before = r@;
        let x = v[i].replicate();
        r.push(x);
        proof {
            lemma_views_push(before, x);
            assert(views(v@).take(i + 1) =~= views(v@).take(i as int).push(v@[i as int]@));
        }
        i = i + 1;
    }
    assert(views(r@) =~= views(v@));
    r
}

/// Whether some element satisfies the predicate.
pub(crate) fn any_element<T: View, F: Fn(&T) -> bool>(
    v: &Vec<T>,
    f: F,
    Ghost(p): Ghost<spec_fn(T::V) -> bool>,
) -> (r: bool)
    requires
        forall|t: T| #[trigger] call_requires(f, (&t,)),
        forall|t: T, b: bool| #[trigger] call_ensures(f, (&t,), b) ==> b == p(t@),
    ensures
        r == any_of(views(v@), p),
{
    let mut i: usize = 0;
    while i < v.len()
        invariant
            i <= v.len(),
            forall|t: T| #[trigger] call_requires(f, (&t,)),
            forall|t: T, b: bool| #[trigger] call_ensures(f, (&t,), b) ==> b == p(t@),
            forall|j: int| 0 <= j < i ==> !p(#[trigger] views(v@)[j]),
        decreases v.len() - i,
    {
        if f(&v[i]) {
            assert(p(views(v@)[i as int]));
            return true;
        }
        assert(!p(views(v@)[i as int]));
        i = i + 1;
    }
    false
}

/// Whether every element satisfies the predicate.
pub(crate) fn all_elements<T: View, F: Fn(&T) -> bool>(
    v: &Vec<T>,
    f: F,
    Ghost(p): Ghost<spec_fn(T::V) -> bool>,
) -> (r: bool)
    requires
        forall|t: T| #[trigger] call_requires(f, (&t,)),
        forall|t: T, b: bool| #[trigger] call_ensures(f, (&t,), b) ==> b == p(t@),
    ensures
        r == all_of(views(v@), p),
{
    let mut i: usize = 0;
    while i < v.len()
        invariant
            i <= v.len(),
            forall|t: T| #[trigger] call_requires(f, (&t,)),
            forall|t: T, b: bool| #[trigger] call_ensures(f, (&t,), b) ==> b == p(t@),
            forall|j: int| 0 <= j < i ==> p(#[trigger] views(v@)[j]),
        decreases v.len() - i,
    {
        if !f(&v[i]) {
            assert(!p(views(v@)[i as int]));
            return false;
        }
        assert(p(views(v@)[i as int]));
        i = i + 1;
    }
    true
}

/// Copies of the elements that satisfy the predicate, in order.
pub(crate) fn pick<T: Replicate, F: Fn(&T) -> bool>(
    v: &Vec<T>,
    f: F,
    Ghost(p): Ghost<spec_fn(T::V) -> bool>,
) -> (r: Vec<T>)
    requires
        forall|t: T| #[trigger] call_requires(f, (&t,)),
        forall|t: T, b: bool| #[trigger] call_ensures(f, (&t,), b) ==> b == p(t@),
    ensures
        views(r@) == views(v@).filter(p),
{
    let mut r: Vec<T> = Vec::new();
    let mut i: usize = 0;
    proof {
        lemma_filter_none(views(v@), p);
    }
    assert(views(r@) =~= views(v@).take(0).filter(p));
    while i < v.len()
        invariant
            i <= v.len(),
            forall|t: T| #[trigger] call_requires(f, (&t,)),
            forall|t: T, b: bool| #[trigger] call_ensures(f, (&t,), b) ==> b == p(t@),
            views(r@) == views(v@).take(i as int).filter(p),
        decreases v.len() - i,
    {
        proof {
            lemma_filter_step(views(v@), i as int, p);
        }
        if f(&v[i]) {
            let ghost before = r@;
            let x = v[i].replicate();
            r.push(x);
            proof {
                lemma_views_push(before, x);
            }
        }
        i = i + 1;
    }
    assert(views(v@).take(v@.len() as int) =~= views(v@));
    r
}

/// Drops the elements that do not satisfy the predicate; the others stay in
/// order.
pub(crate) fn keep_only<T: View, F: Fn(&T) -> bool>(
    v: &mut Vec<T>,
    f: F,
    Ghost(p): Ghost<spec_fn(T::V) -> bool>,
)
    requires
        forall|t: T| #[trigger] call_requires(f, (&t,)),
        forall|t: T, b: bool| #[trigger] call_ensures(f, (&t,), b) ==> b == p(t@),
    ensures
        views(final(v)@) == views(old(v)@).filter(p),
{
    let ghost whole = views(v@);
    let ghost mut seen: int = 0;
    let mut i: usize = 0;
    proof {
        lemma_filter_none(whole, p);
        assert(views(v@) =~= whole.take(0).filter(p) + whole.skip(0));
    }
    while i < v.len()
        invariant
            0 <= seen <= whole.len(),
            forall|t: T| #[trigger] call_requires(f, (&t,)),
            forall|t: T, b: bool| #[trigger] call_ensures(f, (&t,), b) ==> b == p(t@),
            i == whole.take(seen).filter(p).len(),
            i <= v.len(),
            v.len() - i == whole.len() - seen,
            views(v@) == whole.take(seen).filter(p) + whole.skip(seen),
        decreases v.len() - i,
    {
        proof {
            lemma_filter_step(whole, seen, p);
            assert(views(v@)[i as int] == whole[seen]);
        }
        let ghost before = v@;
        if f(&v[i]) {
            i = i + 1;
            proof {
                assert(whole.take(seen).filter(p).push(whole[seen]) + whole.skip(seen + 1)
                    =~= whole.take(seen).filter(p) + whole.skip(seen));
            }
        } else {
            let _ = v.remove(i);
            proof {
                assert(views(v@) =~= views(before).remove(i as int));
                assert(views(before).remove(i as int) =~= whole.take(seen).filter(p) + whole.skip(
                    seen + 1,
                ));
            }
        }
        proof {
            seen = seen + 1;
        }
    }
    proof {
        assert(whole.take(seen) =~= whole);
        assert(views(v@) =~= whole.filter(p));
    }
}

/// An element is let through by a filter exactly if it was there and satisfies the
/// predicate.
pub proof fn lemma_filter_members<V>(s: Seq<V>, p: spec_fn(V) -> bool, x: V)
    ensures
        s.filter(p).contains(x) <==> s.contains(x) && p(x),
{
    let f = s.filter(p);
    lemma_filter_holds(s, p);
    if f.contains(x) {
        let i = choose|i: int| 0 <= i < f.len() && f[i] == x;
        assert(p(f[i]));
        assert(s.contains(f[i]));
    }
    if s.contains(x) && p(x) {
        let i = choose|i: int| 0 <= i < s.len() && s[i] == x;
        assert(f.contains(s[i]));
    }
}

} // verus!
