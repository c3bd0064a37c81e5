//! A table whose places are used again.

use vstd::prelude::*;

verus! {

/// What stands in a table: the entries under their places, the places that are
/// free, the last of which is used next, and the first place never used.
#[verifier::ext_equal]
pub struct TableView<T> {
    pub slots: Map<int, T>,
    pub free: Seq<int>,
    pub high: int,
}

impl<T> TableView<T> {
    /// The place that the next entry gets.
    pub open spec fn next(self) -> int {
        if self.free.len() > 0 {
            self.free.last()
        } else {
            self.high
        }
    }

    /// The table without the entry at `i`.
    pub open spec fn taken(self, i: int) -> TableView<T> {
        TableView { slots: self.slots.remove(i), free: self.free.push(i), ..self }
    }

    /// The table with one more entry.
    pub open spec fn added(self, t: T) -> TableView<T> {
        if self.free.len() > 0 {
            TableView {
                slots: self.slots.insert(self.free.last(), t),
                free: self.free.drop_last(),
                ..self
            }
        } else {
            TableView { slots: self.slots.insert(self.high, t), high: self.high + 1, ..self }
        }
    }

    /// The table with another entry at `i`.
    pub open spec fn replaced(self, i: int, t: T) -> TableView<T> {
        TableView { slots: self.slots.insert(i, t), ..self }
    }

    pub open spec fn has(self, i: int) -> bool {
        self.slots.dom().contains(i)
    }

    /// Every place below the first unused one holds an entry or is free, and none
    /// is free twice.
    pub open spec fn consistent(self) -> bool {
        &&& self.high >= 0
        &&& self.free.no_duplicates()
        &&& forall|i: int|
            #[trigger] self.has(i) <==> 0 <= i < self.high && !self.free.contains(i)
        &&& forall|k: int|
            0 <= k < self.free.len() ==> 0 <= #[trigger] self.free[k] < self.high
    }
}

/// Entries with places of their own. A place that was given up is used again.
pub struct SlotTable<T: View> {
    slots: Vec<Option<T>>,
    free: Vec<usize>,
}

impl<T: View> SlotTable<T> {
    pub closed spec fn model(&self) -> TableView<T::V> {
        TableView {
            slots: Map::new(
                |i: int| 0 <= i < self.slots@.len() && self.slots@[i] is Some,
                |i: int| self.slots@[i]->0@,
            ),
            free: Seq::new(self.free@.len(), |k: int| self.free@[k] as int),
            high: self.slots@.len() as int,
        }
    }

    #[verifier::type_invariant]
    spec fn well_formed(self) -> bool {
        &&& self.free@.no_duplicates()
        &&& forall|k: int|
            0 <= k < self.free@.len() ==> (#[trigger] self.free@[k]) < self.slots@.len()
                && self.slots@[self.free@[k] as int] is None
        &&& forall|i: int|
            0 <= i < self.slots@.len() && (#[trigger] self.slots@[i]) is None
                ==> self.free@.contains(i as usize)
    }
}

impl<T: View> View for SlotTable<T> {
    type V = TableView<T::V>;

    open spec fn view(&self) -> TableView<T::V> {
        self.model()
    }
}

impl<T: View> SlotTable<T> {
    proof fn lemma_model(&self)
        requires
            self.well_formed(),
        ensures
            self.model().consistent(),
    {
        let m = self.model();
        assert(self.slots.len() == self.slots@.len());
        assert forall|i: int| #[trigger] m.has(i) <==> 0 <= i < m.high && !m.free.contains(i) by {
            if 0 <= i < m.high {
                if self.slots@[i] is None {
                    assert(self.free@.contains(i as usize));
                    let k = choose|k: int| 0 <= k < self.free@.len() && self.free@[k] == i as usize;
                    assert(m.free[k] == i);
                } else if m.free.contains(i) {
                    let k = choose|k: int| 0 <= k < m.free.len() && m.free[k] == i;
                    assert(self.free@[k] == i);
                }
            }
        }
        assert forall|a: int, b: int|
            0 <= a < m.free.len() && 0 <= b < m.free.len() && a != b implies m.free[a]
            != m.free[b] by {
            assert(self.free@[a] != self.free@[b]);
        }
    }

    pub fn new() -> (r: Self)
        ensures
            r@ == (TableView { slots: Map::<int, T::V>::empty(), free: Seq::empty(), high: 0 }),
    {
        let r = SlotTable { slots: Vec::new(), free: Vec::new() };
        assert(r.model().slots =~= Map::<int, T::V>::empty());
        assert(r.model().free =~= Seq::<int>::empty());
        r
    }

    /// The first place that was never used.
    pub fn high(&self) -> (r: usize)
        ensures
            r == self@.high,
            self@.consistent(),
    {
        proof {
            use_type_invariant(self);
            self.lemma_model();
        }
        self.slots.len()
    }

    /// How many entries there are.
    pub fn live(&self) -> (r: usize)
        ensures
            self@.consistent(),
            r == self@.slots.dom().len(),
            r == self@.high - self@.free.len(),
            r <= self@.high,
    {
        proof {
            use_type_invariant(self);
            self.lemma_model();
            law_every_place_is_used_or_free(self@);
        }
        self.slots.len() - self.free.len()
    }

    pub fn get(&self, i: usize) -> (r: Option<&T>)
        ensures
            r is Some <==> self@.has(i as int),
            r matches Some(t) ==> self@.slots[i as int] == t@,
    {
        if i >= self.slots.len() {
            return None;
        }
        match &self.slots[i] {
            Some(t) => Some(t),
            None => None,
        }
    }

    /// Takes the entry at `i` out. Its place is the next one used.
    pub fn take(&mut self, i: usize) -> (r: Option<T>)
        ensures
            r is Some <==> old(self)@.has(i as int),
            r matches Some(t) ==> old(self)@.slots[i as int] == t@ && final(self)@ == old(
                self,
            )@.taken(i as int),
            r is None ==> final(self)@ == old(self)@,
    {
        proof {
            use_type_invariant(&*self);
        }
        if i >= self.slots.len() || self.slots[i].is_none() {
            return None;
        }
        let ghost before = self.model();
        let (mut slots, mut free) = self.open();
        let ghost olds = slots@;
        let ghost oldf = free@;
        let mut out: Option<T> = None;
        std::mem::swap(&mut slots[i], &mut out);
        proof {
            assert(!oldf.contains(i)) by {
                if oldf.contains(i) {
                    let k = choose|k: int| 0 <= k < oldf.len() && oldf[k] == i;
                    assert(olds[oldf[k] as int] is None);
                }
            }
        }
        free.push(i);
        proof {
            assert forall|a: int, b: int| 0 <= a < free@.len() && 0 <= b < free@.len() && a
                != b implies free@[a] != free@[b] by {
                if a < oldf.len() {
                    assert(oldf.contains(oldf[a]));
                }
                if b < oldf.len() {
                    assert(oldf.contains(oldf[b]));
                }
            }
            assert forall|k: int| 0 <= k < free@.len() implies (#[trigger] free@[k]) < slots@.len()
                && slots@[free@[k] as int] is None by {
                if k < oldf.len() {
                    assert(oldf[k] < olds.len());
                }
            }
            assert forall|j: int| 0 <= j < slots@.len() && (#[trigger] slots@[j])
                is None implies free@.contains(j as usize) by {
                if j == i {
                    assert(free@[oldf.len() as int] == i);
                } else {
                    assert(olds[j] is None);
                    let k = choose|k: int| 0 <= k < oldf.len() && oldf[k] == j as usize;
                    assert(free@[k] == j as usize);
                }
            }
        }
        *self = SlotTable { slots, free };
        proof {
            assert(self.model().slots =~= before.slots.remove(i as int));
            assert(self.model().free =~= before.free.push(i as int));
        }
        out
    }

    /// Takes the two lists out, and leaves an empty table.
    fn open(&mut self) -> (r: (Vec<Option<T>>, Vec<usize>))
        ensures
            r.0@ == old(self).slots@,
            r.1@ == old(self).free@,
    {
        let mut empty: SlotTable<T> = SlotTable { slots: Vec::new(), free: Vec::new() };
        std::mem::swap(self, &mut empty);
        (empty.slots, empty.free)
    }

    /// Puts an entry at the next place.
    pub fn insert(&mut self, t: T) -> (r: usize)
        requires
            old(self)@.high < usize::MAX,
        ensures
            r == old(self)@.next(),
            !old(self)@.has(r as int),
            final(self)@ == old(self)@.added(t@),
            final(self)@.high <= old(self)@.high + 1,
    {
        proof {
            use_type_invariant(&*self);
            self.lemma_model();
        }
        let ghost before = self.model();
        let (mut slots, mut free) = self.open();
        let ghost olds = slots@;
        let ghost oldf = free@;
        match free.pop() {
            Some(i) => {
                proof {
                    assert(oldf[oldf.len() - 1] == i);
                    assert(olds[i as int] is None);
                    assert(before.free.last() == i);
                }
                let ghost tv = t@;
                slots.set(i, Some(t));
                proof {
                    assert(free@ =~= oldf.drop_last());
                    assert forall|k: int| 0 <= k < free@.len() implies (#[trigger] free@[k])
                        < slots@.len() && slots@[free@[k] as int] is None by {
                        assert(oldf[k] != oldf[oldf.len() - 1]);
                    }
                    assert forall|j: int| 0 <= j < slots@.len() && (#[trigger] slots@[j])
                        is None implies free@.contains(j as usize) by {
                        assert(olds[j] is None);
                        let k = choose|k: int| 0 <= k < oldf.len() && oldf[k] == j as usize;
                        assert(free@[k] == j as usize);
                    }
                }
                *self = SlotTable { slots, free };
                proof {
                    assert(self.model().slots =~= before.slots.insert(i as int, tv));
                    assert(self.model().free =~= before.free.drop_last());
                }
                i
            },
            None => {
                let ghost tv = t@;
                let i: usize = slots.len();
                slots.push(Some(t));
                proof {
                    assert forall|j: int| 0 <= j < slots@.len() && (#[trigger] slots@[j])
                        is None implies free@.contains(j as usize) by {
                        assert(olds[j] is None);
                    }
                }
                *self = SlotTable { slots, free };
                proof {
                    assert(self.model().slots =~= before.slots.insert(i as int, tv));
                    assert(self.model().free =~= before.free);
                }
                i
            },
        }
    }
}

/// No place is lost: with the free ones, the entries make up all places that were
/// ever used.
pub proof fn law_every_place_is_used_or_free<T>(t: TableView<T>)
    requires
        t.consistent(),
    ensures
        t.slots.dom().finite(),
        t.slots.dom().len() + t.free.len() == t.high,
{
    vstd::set_lib::lemma_int_range(0, t.high);
    let all = vstd::set_lib::set_int_range(0, t.high);
    let unused = t.free.to_set();
    t.free.unique_seq_to_set();
    assert(unused.subset_of(all)) by {
        assert forall|i: int| unused.contains(i) implies all.contains(i) by {
            let k = choose|k: int| 0 <= k < t.free.len() && t.free[k] == i;
            assert(0 <= t.free[k] < t.high);
        }
    }
    assert(t.slots.dom() =~= all.difference(unused)) by {
        assert forall|i: int| t.slots.dom().contains(i) == all.difference(unused).contains(i) by {
            assert(t.has(i) <==> 0 <= i < t.high && !t.free.contains(i));
        }
    }
    vstd::set_lib::lemma_len_subset(unused, all);
    vstd::set_lib::lemma_len_difference(all, unused);
    assert(all.difference(unused) + unused =~= all);
    vstd::set_lib::lemma_set_disjoint_lens(all.difference(unused), unused);
}

/// Taking an entry out and putting one in leaves the table with another entry at
/// the same place.
pub proof fn lemma_put_back<T>(t: TableView<T>, i: int, v: T)
    ensures
        t.taken(i).next() == i,
        t.taken(i).added(v) == t.replaced(i, v),
{
    assert(t.taken(i).free.drop_last() =~= t.free);
    assert(t.taken(i).added(v).slots =~= t.slots.insert(i, v));
}

/// The place of a new entry held none before.
pub proof fn lemma_next_is_unused<T>(t: TableView<T>)
    requires
        t.consistent(),
    ensures
        !t.has(t.next()),
        t.next() >= 0,
{
    if t.free.len() > 0 {
        assert(t.free.contains(t.free.last()));
    }
}

/// A new entry goes to a place that was free, and disturbs no other; taking one out frees
/// its place alone.
pub proof fn law_entries_do_not_disturb_each_other<T>(t: TableView<T>, x: T, i: int, j: int)
    requires
        t.consistent(),
        t.has(i),
    ensures
        !t.has(t.next()),
        t.added(x).has(t.next()) && t.added(x).slots[t.next()] == x,
        t.added(x).has(i) && t.added(x).slots[i] == t.slots[i],
        !t.taken(i).has(i),
        j != i ==> t.taken(i).has(j) == t.has(j) && t.taken(i).slots[j] == t.slots[j],
        t.taken(i).next() == i,
        t.replaced(i, x).has(i) && t.replaced(i, x).slots[i] == x,
        j != i ==> t.replaced(i, x).has(j) == t.has(j) && t.replaced(i, x).slots[j] == t.slots[j],
        t.added(x).slots.dom() =~= t.slots.dom().insert(t.next()),
{
    if t.free.len() > 0 {
        assert(t.free.contains(t.free[t.free.len() - 1]));
    }
    assert(!t.has(t.next()));
}

} // verus!
