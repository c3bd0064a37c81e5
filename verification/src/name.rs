//! Domain names: sequences of labels, compared without regard to ASCII case.

use vstd::prelude::*;

verus! {

/// The longest label that a name can hold.
pub const MAX_LABEL_LEN: usize = 63;

/// The longest name in wire form, the root's length octet included.
pub const MAX_NAME_LEN: usize = 255;

/// The lower-case form of an ASCII letter; any other octet is unchanged.
pub open spec fn lower(b: u8) -> u8 {
    if 65 <= b <= 90 {
        (b + 32) as u8
    } else {
        b
    }
}

/// The upper-case form of an ASCII letter; any other octet is unchanged.
pub open spec fn upper(b: u8) -> u8 {
    if 97 <= b <= 122 {
        (b - 32) as u8
    } else {
        b
    }
}

pub open spec fn is_letter(b: u8) -> bool {
    65 <= b <= 90 || 97 <= b <= 122
}

pub open spec fn lower_label(l: Seq<u8>) -> Seq<u8> {
    Seq::new(l.len(), |i: int| lower(l[i]))
}

/// A name with every letter in lower case: equal for names that differ in
/// case alone.
pub open spec fn fold_case(n: Seq<Seq<u8>>) -> Seq<Seq<u8>> {
    Seq::new(n.len(), |i: int| lower_label(n[i]))
}

pub open spec fn same_name(a: Seq<Seq<u8>>, b: Seq<Seq<u8>>) -> bool {
    fold_case(a) == fold_case(b)
}

/// The last `k` labels.
pub open spec fn last_labels(n: Seq<Seq<u8>>, k: int) -> Seq<Seq<u8>> {
    if 0 <= k <= n.len() {
        n.skip(n.len() - k)
    } else {
        n
    }
}

/// `name` is `zone` or lies below it.
pub open spec fn within(name: Seq<Seq<u8>>, zone: Seq<Seq<u8>>) -> bool {
    zone.len() <= name.len() && same_name(last_labels(name, zone.len() as int), zone)
}

/// Length in wire form: one length octet per label, and one for the root.
pub open spec fn wire_len(n: Seq<Seq<u8>>) -> int
    decreases n.len(),
{
    if n.len() == 0 {
        1
    } else {
        wire_len(n.drop_last()) + n.last().len() + 1
    }
}

/// What every name keeps to: no empty label, none over 63 octets, and no more
/// than 255 octets in all.
pub open spec fn valid_name(n: Seq<Seq<u8>>) -> bool {
    &&& forall|i: int| 0 <= i < n.len() ==> 1 <= (#[trigger] n[i]).len() <= MAX_LABEL_LEN
    &&& wire_len(n) <= MAX_NAME_LEN
}

/// The labels of a vector of vectors.
pub open spec fn labels_view(v: Seq<Vec<u8>>) -> Seq<Seq<u8>> {
    Seq::new(v.len(), |i: int| v[i]@)
}

/// A valid name. The root has no label.
#[derive(PartialEq, Eq, Debug, Hash)]
pub struct Name {
    labels: Vec<Vec<u8>>,
}

impl View for Name {
    type V = Seq<Seq<u8>>;

    closed spec fn view(&self) -> Seq<Seq<u8>> {
        labels_view(self.labels@)
    }
}

/// A valid name has few enough labels for its wire form.
pub proof fn lemma_label_count(n: Seq<Seq<u8>>)
    requires
        forall|i: int| 0 <= i < n.len() ==> 1 <= (#[trigger] n[i]).len(),
    ensures
        2 * n.len() + 1 <= wire_len(n),
    decreases n.len(),
{
    if n.len() > 0 {
        let m = n.drop_last();
        assert forall|i: int| 0 <= i < m.len() implies 1 <= (#[trigger] m[i]).len() by {
            assert(m[i] == n[i]);
        }
        lemma_label_count(m);
        assert(n.last() == n[n.len() - 1]);
    }
}

/// Lower case is a matter of the single octet: folding a folded name changes
/// nothing.
pub proof fn lemma_fold_idempotent(n: Seq<Seq<u8>>)
    ensures
        fold_case(fold_case(n)) == fold_case(n),
{
    assert forall|i: int| 0 <= i < n.len() implies #[trigger] fold_case(fold_case(n))[i]
        == fold_case(n)[i] by {
        assert(lower_label(lower_label(n[i])) =~= lower_label(n[i]));
    }
    assert(fold_case(fold_case(n)) =~= fold_case(n));
}

pub(crate) proof fn lemma_wire_len_by_lengths(a: Seq<Seq<u8>>, b: Seq<Seq<u8>>)
    requires
        a.len() == b.len(),
        forall|i: int| 0 <= i < a.len() ==> (#[trigger] a[i]).len() == b[i].len(),
    ensures
        wire_len(a) == wire_len(b),
    decreases a.len(),
{
    if a.len() > 0 {
        let x = a.drop_last();
        let y = b.drop_last();
        assert forall|i: int| 0 <= i < x.len() implies (#[trigger] x[i]).len() == y[i].len() by {
            assert(x[i] == a[i]);
        }
        lemma_wire_len_by_lengths(x, y);
        assert(a.last() == a[a.len() - 1]);
    }
}

proof fn lemma_wire_len_skip(n: Seq<Seq<u8>>, k: int)
    requires
        0 <= k <= n.len(),
    ensures
        wire_len(n.skip(k)) <= wire_len(n),
    decreases n.len(),
{
    if k < n.len() {
        assert(n.skip(k).drop_last() =~= n.drop_last().skip(k));
        assert(n.skip(k).last() == n.last());
        lemma_wire_len_skip(n.drop_last(), k);
    } else {
        assert(n.skip(k) =~= Seq::<Seq<u8>>::empty());
        lemma_wire_len_positive(n);
    }
}

proof fn lemma_wire_len_positive(n: Seq<Seq<u8>>)
    ensures
        wire_len(n) >= 1,
    decreases n.len(),
{
    if n.len() > 0 {
        lemma_wire_len_positive(n.drop_last());
    }
}

proof fn lemma_wire_len_take(n: Seq<Seq<u8>>, k: int)
    requires
        0 <= k <= n.len(),
    ensures
        wire_len(n.take(k)) <= wire_len(n),
    decreases n.len() - k,
{
    if k < n.len() {
        lemma_wire_len_take(n, k + 1);
        assert(n.take(k + 1).drop_last() =~= n.take(k));
    } else {
        assert(n.take(k) =~= n);
    }
}

fn lower_octet(b: u8) -> (r: u8)
    ensures
        r == lower(b),
{
    if b >= 65 && b <= 90 {
        b + 32
    } else {
        b
    }
}

fn upper_octet(b: u8) -> (r: u8)
    ensures
        r == upper(b),
{
    if b >= 97 && b <= 122 {
        b - 32
    } else {
        b
    }
}

fn clone_octets(v: &Vec<u8>) -> (r: Vec<u8>)
    ensures
        r@ == v@,
{
    let mut r: Vec<u8> = Vec::new();
    r.extend_from_slice(v.as_slice());
    assert(r@ =~= v@);
    r
}

fn labels_equal(a: &Vec<u8>, b: &Vec<u8>) -> (r: bool)
    ensures
        r == (a@ == b@),
{
    if a.len() != b.len() {
        return false;
    }
    let mut i: usize = 0;
    while i < a.len()
        invariant
            i <= a.len(),
            a.len() == b.len(),
            forall|j: int| 0 <= j < i ==> a@[j] == b@[j],
        decreases a.len() - i,
    {
        if a[i] != b[i] {
            assert(a@[i as int] != b@[i as int]);
            return false;
        }
        i = i + 1;
    }
    assert(a@ =~= b@);
    true
}

fn labels_same(a: &Vec<u8>, b: &Vec<u8>) -> (r: bool)
    ensures
        r == (lower_label(a@) == lower_label(b@)),
{
    if a.len() != b.len() {
        assert(lower_label(a@).len() != lower_label(b@).len());
        return false;
    }
    let mut i: usize = 0;
    while i < a.len()
        invariant
            i <= a.len(),
            a.len() == b.len(),
            forall|j: int| 0 <= j < i ==> lower(a@[j]) == lower(b@[j]),
        decreases a.len() - i,
    {
        if lower_octet(a[i]) != lower_octet(b[i]) {
            assert(lower_label(a@)[i as int] != lower_label(b@)[i as int]);
            return false;
        }
        i = i + 1;
    }
    assert(lower_label(a@) =~= lower_label(b@));
    true
}

impl Clone for Name {
    fn clone(&self) -> (r: Self)
        ensures
            r@ == self@,
    {
        proof {
            use_type_invariant(self);
        }
        let labels = clone_labels(&self.labels, 0, self.labels.len());
        assert(labels_view(labels@) =~= labels_view(self.labels@));
        Name { labels }
    }
}

/// Copies of the labels from `from` up to `to`.
fn clone_labels(v: &Vec<Vec<u8>>, from: usize, to: usize) -> (r: Vec<Vec<u8>>)
    requires
        from <= to <= v.len(),
    ensures
        labels_view(r@) == labels_view(v@).subrange(from as int, to as int),
{
    let mut r: Vec<Vec<u8>> = Vec::new();
    let mut i: usize = from;
    while i < to
        invariant
            from <= i <= to <= v.len(),
            labels_view(r@) =~= labels_view(v@).subrange(from as int, i as int),
        decreases to - i,
    {
        let ghost before = r@;
        r.push(clone_octets(&v[i]));
        proof {
            assert(labels_view(r@) =~= labels_view(before).push(v@[i as int]@));
            assert(labels_view(v@).subrange(from as int, i + 1) =~= labels_view(v@).subrange(
                from as int,
                i as int,
            ).push(labels_view(v@)[i as int]));
        }
        i = i + 1;
    }
    r
}

impl Name {
    #[verifier::type_invariant]
    spec fn well_formed(self) -> bool {
        valid_name(labels_view(self.labels@))
    }

    /// The name with no label.
    pub fn root() -> (r: Name)
        ensures
            r@ == Seq::<Seq<u8>>::empty(),
    {
        let labels: Vec<Vec<u8>> = Vec::new();
        assert(labels_view(labels@) =~= Seq::<Seq<u8>>::empty());
        Name { labels }
    }

    /// The name made of `labels`, if they form a valid name.
    pub fn from_labels(labels: Vec<Vec<u8>>) -> (r: Option<Name>)
        ensures
            r is Some <==> valid_name(labels_view(labels@)),
            r matches Some(n) ==> n@ == labels_view(labels@),
    {
        let ghost view = labels_view(labels@);
        let mut total: usize = 1;
        let mut i: usize = 0;
        assert(view.take(0) =~= Seq::<Seq<u8>>::empty());
        while i < labels.len()
            invariant
                i <= labels.len(),
                view == labels_view(labels@),
                total == wire_len(view.take(i as int)),
                total <= MAX_NAME_LEN,
                forall|j: int| 0 <= j < i ==> 1 <= (#[trigger] view[j]).len() <= MAX_LABEL_LEN,
            decreases labels.len() - i,
        {
            let n: usize = labels[i].len();
            proof {
                let next = view.take(i + 1);
                assert(next.drop_last() =~= view.take(i as int));
                assert(next.last() == view[i as int]);
                lemma_wire_len_take(view, i + 1);
            }
            if n == 0 || n > MAX_LABEL_LEN || total + n + 1 > MAX_NAME_LEN {
                assert(view[i as int].len() == n);
                return None;
            }
            total = total + n + 1;
            i = i + 1;
        }
        assert(view.take(view.len() as int) =~= view);
        Some(Name { labels })
    }

    pub fn num_labels(&self) -> (r: usize)
        ensures
            r == self@.len(),
            r <= 127,
    {
        proof {
            use_type_invariant(self);
            lemma_label_count(self@);
        }
        self.labels.len()
    }

    pub fn is_root(&self) -> (r: bool)
        ensures
            r == (self@.len() == 0),
    {
        self.labels.len() == 0
    }

    /// A copy of the label at `i`, counted from the left.
    pub fn label(&self, i: usize) -> (r: Vec<u8>)
        requires
            i < self@.len(),
        ensures
            r@ == self@[i as int],
    {
        clone_octets(&self.labels[i])
    }

    /// Copies of all the labels, from the left.
    pub fn labels(&self) -> (r: Vec<Vec<u8>>)
        ensures
            labels_view(r@) == self@,
    {
        let r = clone_labels(&self.labels, 0, self.labels.len());
        assert(labels_view(r@) =~= self@);
        r
    }

    /// The name made of the last `k` labels; the whole name where it has no
    /// more than `k`.
    pub fn suffix(&self, k: usize) -> (r: Name)
        ensures
            r@ == last_labels(self@, k as int),
    {
        proof {
            use_type_invariant(self);
        }
        let n: usize = self.labels.len();
        if k >= n {
            proof {
                assert(self@.skip(0) =~= self@);
            }
            return self.clone();
        }
        let labels = clone_labels(&self.labels, n - k, n);
        proof {
            assert(labels_view(labels@) =~= self@.skip(n - k));
            lemma_wire_len_skip(self@, n - k);
            assert forall|i: int| 0 <= i < labels_view(labels@).len() implies 1 <= (
            #[trigger] labels_view(labels@)[i]).len() <= MAX_LABEL_LEN by {
                assert(labels_view(labels@)[i] == self@[i + (n - k)]);
            }
        }
        Name { labels }
    }

    pub fn eq_ignore_case(&self, other: &Name) -> (r: bool)
        ensures
            r == same_name(self@, other@),
    {
        if self.labels.len() != other.labels.len() {
            assert(fold_case(self@).len() != fold_case(other@).len());
            return false;
        }
        let mut i: usize = 0;
        while i < self.labels.len()
            invariant
                i <= self.labels.len(),
                self.labels.len() == other.labels.len(),
                forall|j: int|
                    0 <= j < i ==> lower_label(#[trigger] self@[j]) == lower_label(other@[j]),
            decreases self.labels.len() - i,
        {
            if !labels_same(&self.labels[i], &other.labels[i]) {
                assert(fold_case(self@)[i as int] != fold_case(other@)[i as int]);
                return false;
            }
            assert(lower_label(self@[i as int]) == lower_label(other@[i as int]));
            i = i + 1;
        }
        assert(fold_case(self@) =~= fold_case(other@));
        true
    }

    /// The two names have the same octets, letter case included.
    pub fn eq_exact(&self, other: &Name) -> (r: bool)
        ensures
            r == (self@ == other@),
    {
        if self.labels.len() != other.labels.len() {
            assert(self@.len() != other@.len());
            return false;
        }
        let mut i: usize = 0;
        while i < self.labels.len()
            invariant
                i <= self.labels.len(),
                self.labels.len() == other.labels.len(),
                forall|j: int| 0 <= j < i ==> #[trigger] self@[j] == other@[j],
            decreases self.labels.len() - i,
        {
            if !labels_equal(&self.labels[i], &other.labels[i]) {
                assert(self@[i as int] != other@[i as int]);
                return false;
            }
            assert(self@[i as int] == other@[i as int]);
            i = i + 1;
        }
        assert(self@ =~= other@);
        true
    }

    /// The name is `zone` or lies below it.
    pub fn ends_with_ignore_case(&self, zone: &Name) -> (r: bool)
        ensures
            r == within(self@, zone@),
    {
        let n: usize = self.labels.len();
        let k: usize = zone.labels.len();
        if k > n {
            return false;
        }
        let ghost tail = last_labels(self@, k as int);
        let mut i: usize = 0;
        while i < k
            invariant
                i <= k <= n,
                n == self.labels.len(),
                k == zone.labels.len(),
                tail == last_labels(self@, k as int),
                forall|j: int| 0 <= j < i ==> lower_label(#[trigger] tail[j]) == lower_label(zone@[j]),
            decreases k - i,
        {
            assert(tail[i as int] == self@[i + (n - k)]);
            if !labels_same(&self.labels[i + (n - k)], &zone.labels[i]) {
                assert(fold_case(tail)[i as int] != fold_case(zone@)[i as int]);
                return false;
            }
            assert(lower_label(tail[i as int]) == lower_label(zone@[i as int]));
            i = i + 1;
        }
        assert(fold_case(tail) =~= fold_case(zone@));
        true
    }

    /// The name with every letter in lower case: the same for all names that
    /// differ in case alone, with every other octet as it is.
    pub fn canonical_key(&self) -> (r: Name)
        ensures
            r@ == fold_case(self@),
    {
        proof {
            use_type_invariant(self);
        }
        let mut labels: Vec<Vec<u8>> = Vec::new();
        let mut i: usize = 0;
        while i < self.labels.len()
            invariant
                i <= self.labels.len(),
                labels_view(labels@) =~= fold_case(self@).take(i as int),
            decreases self.labels.len() - i,
        {
            let ghost before = labels@;
            labels.push(lower_octets(&self.labels[i]));
            proof {
                assert(labels_view(labels@) =~= labels_view(before).push(lower_label(self@[i as int])));
                assert(fold_case(self@).take(i + 1) =~= fold_case(self@).take(i as int).push(
                    lower_label(self@[i as int]),
                ));
            }
            i = i + 1;
        }
        proof {
            assert(labels_view(labels@) =~= fold_case(self@));
            lemma_wire_len_by_lengths(fold_case(self@), self@);
        }
        Name { labels }
    }
}

fn lower_octets(v: &Vec<u8>) -> (r: Vec<u8>)
    ensures
        r@ == lower_label(v@),
{
    let mut r: Vec<u8> = Vec::new();
    let mut i: usize = 0;
    while i < v.len()
        invariant
            i <= v.len(),
            r@ =~= lower_label(v@).take(i as int),
        decreases v.len() - i,
    {
        r.push(lower_octet(v[i]));
        i = i + 1;
    }
    assert(r@ =~= lower_label(v@));
    r
}

/// How many letters the label holds.
pub open spec fn letters(l: Seq<u8>) -> int
    decreases l.len(),
{
    if l.len() == 0 {
        0
    } else {
        letters(l.drop_last()) + if is_letter(l.last()) {
            1int
        } else {
            0
        }
    }
}

/// How many letters the name holds.
pub open spec fn name_letters(n: Seq<Seq<u8>>) -> int
    decreases n.len(),
{
    if n.len() == 0 {
        0
    } else {
        name_letters(n.drop_last()) + letters(n.last())
    }
}

/// Bit `k` of a string of octets, from the least significant bit of each one.
pub open spec fn bit_at(bits: Seq<u8>, k: int) -> bool {
    (bits[k / 8] >> ((k % 8) as u8)) & 1 == 1
}

/// An octet in the case that `capital` asks for.
pub open spec fn cased(b: u8, capital: bool) -> u8 {
    if capital {
        upper(b)
    } else {
        lower(b)
    }
}

/// The label with its letters in the case that the bits from `first` on ask
/// for, one bit per letter.
pub open spec fn cased_label(l: Seq<u8>, bits: Seq<u8>, first: int) -> Seq<u8> {
    Seq::new(
        l.len(),
        |i: int|
            if is_letter(l[i]) {
                cased(l[i], bit_at(bits, first + letters(l.take(i))))
            } else {
                l[i]
            },
    )
}

/// The name with its letters in the case that the bits ask for, one bit per
/// letter from the left.
pub open spec fn cased_name(n: Seq<Seq<u8>>, bits: Seq<u8>) -> Seq<Seq<u8>> {
    Seq::new(n.len(), |i: int| cased_label(n[i], bits, name_letters(n.take(i))))
}

proof fn lemma_letters_bound(l: Seq<u8>)
    ensures
        0 <= letters(l) <= l.len(),
    decreases l.len(),
{
    if l.len() > 0 {
        lemma_letters_bound(l.drop_last());
    }
}

proof fn lemma_name_letters_bound(n: Seq<Seq<u8>>)
    ensures
        0 <= name_letters(n) < wire_len(n),
    decreases n.len(),
{
    if n.len() > 0 {
        lemma_name_letters_bound(n.drop_last());
        lemma_letters_bound(n.last());
    }
}

/// Writing letters in any case leaves the name the same.
pub proof fn law_case_keeps_the_name(n: Seq<Seq<u8>>, bits: Seq<u8>)
    ensures
        same_name(cased_name(n, bits), n),
{
    let c = cased_name(n, bits);
    assert forall|i: int| 0 <= i < n.len() implies #[trigger] fold_case(c)[i] == fold_case(n)[i] by {
        assert(lower_label(c[i]) =~= lower_label(n[i]));
    }
    assert(fold_case(c) =~= fold_case(n));
}

pub(crate) fn randomize_letters(name: &Name, bits: &[u8; 32]) -> (r: Name)
    ensures
        r@ == cased_name(name@, bits@),
        same_name(r@, name@),
{
    proof {
        use_type_invariant(name);
        law_case_keeps_the_name(name@, bits@);
    }
    let ghost n = name@;
    let mut labels: Vec<Vec<u8>> = Vec::new();
    let mut used: usize = 0;
    let mut i: usize = 0;
    assert(n.take(0) =~= Seq::<Seq<u8>>::empty());
    while i < name.labels.len()
        invariant
            i <= name.labels.len(),
            n == name@,
            valid_name(n),
            used == name_letters(n.take(i as int)),
            labels_view(labels@) =~= cased_name(n, bits@).take(i as int),
        decreases name.labels.len() - i,
    {
        let ghost l = n[i as int];
        let source = &name.labels[i];
        let mut out: Vec<u8> = Vec::new();
        let mut j: usize = 0;
        proof {
            assert(l.take(0) =~= Seq::<u8>::empty());
            assert(n.take(i + 1).drop_last() =~= n.take(i as int));
            assert(n.take(i + 1).last() == l);
            lemma_wire_len_take(n, i + 1);
            lemma_name_letters_bound(n.take(i + 1));
        }
        let ghost base = used as int;
        while j < source.len()
            invariant
                j <= source.len(),
                source@ == l,
                base == name_letters(n.take(i as int)),
                base + letters(l) < 255,
                used == base + letters(l.take(j as int)),
                out@ =~= cased_label(l, bits@, base).take(j as int),
            decreases source.len() - j,
        {
            let b: u8 = source[j];
            proof {
                assert(l.take(j + 1).drop_last() =~= l.take(j as int));
                assert(l.take(j + 1).last() == b);
                lemma_letters_take(l, j + 1);
            }
            if (b >= 65 && b <= 90) || (b >= 97 && b <= 122) {
                let bit: u8 = (bits[used / 8] >> ((used % 8) as u8)) & 1;
                let c: u8 = if bit == 1 {
                    upper_octet(b)
                } else {
                    lower_octet(b)
                };
                out.push(c);
                used = used + 1;
            } else {
                out.push(b);
            }
            j = j + 1;
        }
        proof {
            assert(l.take(l.len() as int) =~= l);
            assert(out@ =~= cased_label(l, bits@, base));
        }
        let ghost before = labels@;
        labels.push(out);
        proof {
            assert(labels_view(labels@) =~= labels_view(before).push(out@));
            assert(cased_name(n, bits@).take(i + 1) =~= cased_name(n, bits@).take(i as int).push(
                out@,
            ));
        }
        i = i + 1;
    }
    proof {
        assert(labels_view(labels@) =~= cased_name(n, bits@));
        lemma_wire_len_by_lengths(cased_name(n, bits@), n);
    }
    Name { labels }
}

proof fn lemma_letters_take(l: Seq<u8>, k: int)
    requires
        0 <= k <= l.len(),
    ensures
        letters(l.take(k)) <= letters(l),
    decreases l.len() - k,
{
    if k < l.len() {
        lemma_letters_take(l, k + 1);
        assert(l.take(k + 1).drop_last() =~= l.take(k));
    } else {
        assert(l.take(k) =~= l);
    }
}

/// Two octets of a name mean the same: they are equal, or one letter in both cases.
pub open spec fn octets_alike(x: u8, y: u8) -> bool {
    x == y || (65 <= x <= 90 && y == x + 32) || (65 <= y <= 90 && x == y + 32)
}

/// Names are the same exactly if they have the same labels, octet by octet, where only
/// the case of the letters A to Z may differ.
pub proof fn law_names_are_compared_octet_by_octet(a: Seq<Seq<u8>>, b: Seq<Seq<u8>>)
    ensures
        same_name(a, b) <==> {
            &&& a.len() == b.len()
            &&& forall|i: int| 0 <= i < a.len() ==> (#[trigger] a[i]).len() == b[i].len()
            &&& forall|i: int, j: int|
                0 <= i < a.len() && 0 <= j < a[i].len() ==> octets_alike(
                    #[trigger] a[i][j],
                    b[i][j],
                )
        },
        same_name(a, b) ==> same_name(b, a),
        same_name(fold_case(a), a),
        fold_case(fold_case(a)) == fold_case(a),
{
    if same_name(a, b) {
        assert(fold_case(a).len() == fold_case(b).len());
        assert forall|i: int| 0 <= i < a.len() implies (#[trigger] a[i]).len() == b[i].len() by {
            assert(fold_case(a)[i] == lower_label(a[i]));
            assert(fold_case(b)[i] == lower_label(b[i]));
            assert(lower_label(a[i]).len() == lower_label(b[i]).len());
        }
        assert forall|i: int, j: int|
            0 <= i < a.len() && 0 <= j < a[i].len() implies octets_alike(
            #[trigger] a[i][j],
            b[i][j],
        ) by {
            assert(fold_case(a)[i] == lower_label(a[i]));
            assert(fold_case(b)[i] == lower_label(b[i]));
            assert(lower_label(a[i])[j] == lower(a[i][j]));
            assert(b[i].len() == a[i].len());
            assert(lower_label(b[i])[j] == lower(b[i][j]));
        }
    }
    if a.len() == b.len() && (forall|i: int|
        0 <= i < a.len() ==> (#[trigger] a[i]).len() == b[i].len()) && (forall|i: int, j: int|
        0 <= i < a.len() && 0 <= j < a[i].len() ==> octets_alike(#[trigger] a[i][j], b[i][j])) {
        assert forall|i: int| 0 <= i < a.len() implies #[trigger] fold_case(a)[i] == fold_case(
            b,
        )[i] by {
            assert(a[i].len() == b[i].len());
            assert forall|j: int| 0 <= j < a[i].len() implies #[trigger] lower_label(a[i])[j]
                == lower_label(b[i])[j] by {
                assert(octets_alike(a[i][j], b[i][j]));
            }
            assert(lower_label(a[i]) =~= lower_label(b[i]));
        }
        assert(fold_case(a) =~= fold_case(b));
    }
    assert forall|i: int| 0 <= i < a.len() implies #[trigger] fold_case(fold_case(a))[i]
        == fold_case(a)[i] by {
        assert(lower_label(lower_label(a[i])) =~= lower_label(a[i]));
    }
    assert(fold_case(fold_case(a)) =~= fold_case(a));
}

proof fn lemma_fold_parts(a: Seq<Seq<u8>>, b: Seq<Seq<u8>>)
    ensures
        fold_case(a + b) == fold_case(a) + fold_case(b),
{
    assert(fold_case(a + b) =~= fold_case(a) + fold_case(b));
}

/// A name lies within a zone exactly if it is the zone's name with further labels in
/// front of it, in any letter case. Every name lies within the root and within itself,
/// and what lies within a zone lies within all zones around it.
pub proof fn law_within_means_ending_in_the_zone(
    name: Seq<Seq<u8>>,
    zone: Seq<Seq<u8>>,
    around: Seq<Seq<u8>>,
    front: Seq<Seq<u8>>,
)
    ensures
        within(name, zone) <==> zone.len() <= name.len() && same_name(
            name,
            name.take(name.len() - zone.len()) + zone,
        ),
        within(front + zone, zone),
        same_name(name, front + zone) ==> within(name, zone),
        within(name, Seq::<Seq<u8>>::empty()),
        within(name, name),
        within(name, zone) && within(zone, around) ==> within(name, around),
        within(name, zone) && within(zone, name) ==> same_name(name, zone),
{
    let fz = fold_case(zone);
    let e = Seq::<Seq<u8>>::empty();
    assert(last_labels(front + zone, zone.len() as int) =~= zone);
    assert(last_labels(name, 0) =~= e);
    assert(last_labels(name, name.len() as int) =~= name);
    if zone.len() <= name.len() {
        let k = name.len() - zone.len();
        let head = name.take(k);
        let tail = name.skip(k);
        assert(last_labels(name, zone.len() as int) == tail);
        assert(head + tail =~= name);
        lemma_fold_parts(head, tail);
        lemma_fold_parts(head, zone);
        if same_name(name, head + zone) {
            assert(fold_case(tail) =~= fold_case(head + tail).skip(k));
            assert(fz =~= fold_case(head + zone).skip(k));
        }
        if within(name, zone) && within(zone, around) {
            let j = zone.len() - around.len();
            assert(last_labels(name, around.len() as int) =~= tail.skip(j));
            assert(fold_case(tail.skip(j)) =~= fold_case(tail).skip(j));
            assert(fold_case(zone.skip(j)) =~= fz.skip(j));
        }
        if within(zone, name) {
            assert(tail =~= name);
        }
    }
    if same_name(name, front + zone) {
        lemma_fold_parts(front, zone);
        assert(fold_case(name).len() == fold_case(front + zone).len());
        let k = front.len() as int;
        assert(last_labels(name, zone.len() as int) == name.skip(k));
        assert(fold_case(name.skip(k)) =~= fold_case(name).skip(k));
        assert((fold_case(front) + fz).skip(k) =~= fz);
    }
}

/// The last labels of a name put together from two parts are the second part.
pub proof fn law_last_labels_are_the_end(front: Seq<Seq<u8>>, back: Seq<Seq<u8>>)
    ensures
        last_labels(front + back, back.len() as int) == back,
        last_labels(front + back, (front.len() + back.len()) as int) == front + back,
{
    assert(last_labels(front + back, back.len() as int) =~= back);
    assert(last_labels(front + back, (front.len() + back.len()) as int) =~= front + back);
}

/// The length of a name in wire form: one octet for the root, and for each label one
/// octet more than it holds. A name is valid exactly if its labels hold 1 to 63 octets
/// and the whole takes up 255 at most.
pub proof fn law_length_of_a_name(a: Seq<Seq<u8>>, b: Seq<Seq<u8>>, label: Seq<u8>)
    ensures
        wire_len(Seq::empty()) == 1,
        wire_len(a.push(label)) == wire_len(a) + label.len() + 1,
        wire_len(a + b) == wire_len(a) + wire_len(b) - 1,
        valid_name(a) <==> wire_len(a) <= 255 && forall|i: int|
            0 <= i < a.len() ==> 1 <= (#[trigger] a[i]).len() <= 63,
    decreases b.len(),
{
    assert(a.push(label).drop_last() =~= a);
    if b.len() > 0 {
        law_length_of_a_name(a, b.drop_last(), label);
        assert((a + b).drop_last() =~= a + b.drop_last());
        assert((a + b).last() == b.last());
    } else {
        assert(a + b =~= a);
    }
}

/// Each letter of a name takes its case from a bit of its own: capital where the bit is
/// set, small where it is not. What is no letter stays as it is.
pub proof fn law_each_letter_takes_its_bit(n: Seq<Seq<u8>>, bits: Seq<u8>, i: int, j: int)
    requires
        0 <= i < n.len(),
        0 <= j < n[i].len(),
    ensures
        ({
            let k = name_letters(n.take(i)) + letters(n[i].take(j));
            let b = n[i][j];
            let c = cased_name(n, bits)[i][j];
            let set = (bits[k / 8] >> ((k % 8) as u8)) & 1 == 1;
            &&& 65 <= b <= 90 ==> c == if set {
                b
            } else {
                (b + 32) as u8
            }
            &&& 97 <= b <= 122 ==> c == if set {
                (b - 32) as u8
            } else {
                b
            }
            &&& !(65 <= b <= 90) && !(97 <= b <= 122) ==> c == b
        }),
        cased_name(n, bits).len() == n.len(),
        cased_name(n, bits)[i].len() == n[i].len(),
{
}

/// How many letters stand in front of a place: every letter of the labels before and of
/// the label so far counts once, so that no two letters share a bit.
pub proof fn law_letters_are_counted_once(l: Seq<u8>, b: u8, n: Seq<Seq<u8>>)
    ensures
        letters(Seq::empty()) == 0,
        65 <= b <= 90 || 97 <= b <= 122 ==> letters(l.push(b)) == letters(l) + 1,
        !(65 <= b <= 90 || 97 <= b <= 122) ==> letters(l.push(b)) == letters(l),
        name_letters(Seq::empty()) == 0,
        name_letters(n.push(l)) == name_letters(n) + letters(l),
{
    assert(l.push(b).drop_last() =~= l);
    assert(n.push(l).drop_last() =~= n);
}

} // verus!
