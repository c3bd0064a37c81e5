//! Network addresses as plain integers, their order, and address prefixes.

use vstd::prelude::*;

verus! {

/// A 32-bit address, most significant octet first.
#[derive(Clone, Copy, PartialEq, Eq, Structural, Debug, Hash)]
pub struct Ipv4Addr {
    pub bits: u32,
}

/// A 128-bit address, most significant octet first.
#[derive(Clone, Copy, PartialEq, Eq, Structural, Debug, Hash)]
pub struct Ipv6Addr {
    pub bits: u128,
}

#[derive(Clone, Copy, PartialEq, Eq, Structural, Debug, Hash)]
pub enum IpAddr {
    V4(Ipv4Addr),
    V6(Ipv6Addr),
}

/// An address and a port. An address of IPv6 also has a flow label and the number of
/// the link that it belongs to; with IPv4 both are 0.
#[derive(Clone, Copy, PartialEq, Eq, Structural, Debug, Hash)]
pub struct SocketAddr {
    pub ip: IpAddr,
    pub port: u16,
    pub flowinfo: u32,
    pub scope_id: u32,
}

/// An address and a port, without a flow or a link.
pub open spec fn plain_addr(ip: IpAddr, port: u16) -> SocketAddr {
    SocketAddr { ip, port, flowinfo: 0, scope_id: 0 }
}

/// The octets `a.b.c.d` as one number.
pub open spec fn v4_value(a: u8, b: u8, c: u8, d: u8) -> int {
    a * 0x100_0000 + b * 0x1_0000 + c * 0x100 + d
}

/// The octet at `index`, counted from the most significant one of `width`.
pub open spec fn octet_at(value: int, width: nat, index: int) -> u8 {
    ((value / pow256((width - 1 - index) as nat)) % 256) as u8
}

/// 256 to the power of `n`.
pub open spec fn pow256(n: nat) -> int
    decreases n,
{
    if n == 0 {
        1
    } else {
        256 * pow256((n - 1) as nat)
    }
}

/// The octets of `value`, most significant first.
pub open spec fn be_octets(value: int, width: nat) -> Seq<u8> {
    Seq::new(width, |i: int| octet_at(value, width, i))
}

pub proof fn lemma_pow256_positive(n: nat)
    ensures
        pow256(n) > 0,
    decreases n,
{
    if n > 0 {
        lemma_pow256_positive((n - 1) as nat);
    }
}

impl Ipv4Addr {
    pub fn new(a: u8, b: u8, c: u8, d: u8) -> (r: Self)
        ensures
            r.bits == v4_value(a, b, c, d),
    {
        Ipv4Addr { bits: a as u32 * 0x100_0000 + b as u32 * 0x1_0000 + c as u32 * 0x100 + d as u32 }
    }

    /// The four octets, most significant first.
    pub fn octets(&self) -> (r: [u8; 4])
        ensures
            r@ == be_octets(self.bits as int, 4),
    {
        octets_of(self.bits)
    }
}

/// The four octets of `n`, most significant first.
pub(crate) fn octets_of(n: u32) -> (r: [u8; 4])
    ensures
        r@ == be_octets(n as int, 4),
{
    proof {
        reveal_with_fuel(pow256, 4);
    }
    let r = [
        (n / 0x100_0000) as u8,
        (n / 0x1_0000 % 0x100) as u8,
        (n / 0x100 % 0x100) as u8,
        (n % 0x100) as u8,
    ];
    assert(r@ =~= be_octets(n as int, 4));
    r
}

impl Ipv6Addr {
    /// The address whose eight 16-bit groups are given.
    pub fn from_segments(s: [u16; 8]) -> (r: Self)
        ensures
            r.bits == s[0] * 0x1_0000_0000_0000_0000_0000_0000_0000int
                + s[1] * 0x1_0000_0000_0000_0000_0000_0000int
                + s[2] * 0x1_0000_0000_0000_0000_0000int
                + s[3] * 0x1_0000_0000_0000_0000int
                + s[4] * 0x1_0000_0000_0000int
                + s[5] * 0x1_0000_0000int
                + s[6] * 0x1_0000int
                + s[7],
    {
        Ipv6Addr {
            bits: s[0] as u128 * 0x1_0000_0000_0000_0000_0000_0000_0000u128
                + s[1] as u128 * 0x1_0000_0000_0000_0000_0000_0000u128
                + s[2] as u128 * 0x1_0000_0000_0000_0000_0000u128
                + s[3] as u128 * 0x1_0000_0000_0000_0000u128
                + s[4] as u128 * 0x1_0000_0000_0000u128
                + s[5] as u128 * 0x1_0000_0000u128
                + s[6] as u128 * 0x1_0000u128
                + s[7] as u128,
        }
    }

    /// The sixteen octets, most significant first.
    pub fn octets(&self) -> (r: Vec<u8>)
        ensures
            r@ == be_octets(self.bits as int, 16),
    {
        let mut out: Vec<u8> = Vec::new();
        let mut i: usize = 0;
        while i < 16
            invariant
                i <= 16,
                out@ == be_octets(self.bits as int, 16).take(i as int),
            decreases 16 - i,
        {
            let shift: u128 = pow256_exec(15 - i);
            let octet: u8 = ((self.bits / shift) % 256) as u8;
            out.push(octet);
            assert(out@ =~= be_octets(self.bits as int, 16).take(i + 1));
            i = i + 1;
        }
        assert(out@ =~= be_octets(self.bits as int, 16));
        out
    }
}

/// 256 to the power of `n`, for exponents whose power fits.
fn pow256_exec(n: usize) -> (r: u128)
    requires
        n < 16,
    ensures
        r == pow256(n as nat),
        r > 0,
{
    let mut r: u128 = 1;
    let mut i: usize = 0;
    proof {
        reveal_with_fuel(pow256, 17);
    }
    while i < n
        invariant
            i <= n < 16,
            r == pow256(i as nat),
            r > 0,
        decreases n - i,
    {
        proof {
            assert(pow256(i as nat) <= pow256(14)) by {
                lemma_pow256_monotone(i as nat, 14);
            }
            reveal_with_fuel(pow256, 17);
        }
        r = r * 256;
        i = i + 1;
    }
    r
}

pub(crate) proof fn lemma_pow256_monotone(a: nat, b: nat)
    requires
        a <= b,
    ensures
        pow256(a) <= pow256(b),
    decreases b,
{
    if a < b {
        lemma_pow256_monotone(a, (b - 1) as nat);
        lemma_pow256_positive((b - 1) as nat);
    }
}

impl IpAddr {
    pub open spec fn octets_spec(self) -> Seq<u8> {
        match self {
            IpAddr::V4(a) => be_octets(a.bits as int, 4),
            IpAddr::V6(a) => be_octets(a.bits as int, 16),
        }
    }

    /// The octets in network order: four or sixteen of them.
    pub fn octets(&self) -> (r: Vec<u8>)
        ensures
            r@ == self.octets_spec(),
    {
        match self {
            IpAddr::V4(a) => {
                let o = a.octets();
                let mut out: Vec<u8> = Vec::new();
                out.push(o[0]);
                out.push(o[1]);
                out.push(o[2]);
                out.push(o[3]);
                assert(out@ =~= o@);
                out
            },
            IpAddr::V6(a) => a.octets(),
        }
    }

    pub fn is_ipv6(&self) -> (r: bool)
        ensures
            r == (self is V6),
    {
        match self {
            IpAddr::V4(_) => false,
            IpAddr::V6(_) => true,
        }
    }
}

impl SocketAddr {
    pub fn new(ip: IpAddr, port: u16) -> (r: Self)
        ensures
            r == plain_addr(ip, port),
    {
        SocketAddr { ip, port, flowinfo: 0, scope_id: 0 }
    }

    /// An address of IPv6 with all that belongs to it.
    pub fn new_v6(ip: Ipv6Addr, port: u16, flowinfo: u32, scope_id: u32) -> (r: Self)
        ensures
            r == (SocketAddr { ip: IpAddr::V6(ip), port, flowinfo, scope_id }),
    {
        SocketAddr { ip: IpAddr::V6(ip), port, flowinfo, scope_id }
    }

    /// Only an address of IPv6 has a flow and a link.
    pub open spec fn valid(self) -> bool {
        self.ip is V4 ==> self.flowinfo == 0 && self.scope_id == 0
    }
}

impl View for IpAddr {
    type V = IpAddr;

    open spec fn view(&self) -> IpAddr {
        *self
    }
}

impl View for SocketAddr {
    type V = SocketAddr;

    open spec fn view(&self) -> SocketAddr {
        *self
    }
}

impl crate::seqs::Replicate for IpAddr {
    fn replicate(&self) -> (r: Self) {
        *self
    }
}

impl crate::seqs::Replicate for SocketAddr {
    fn replicate(&self) -> (r: Self) {
        *self
    }
}

/// A total order given by one integer per value, unequal for unequal values.
pub trait Ranked: Copy + Sized {
    spec fn rank(self) -> int;

    proof fn rank_is_injective(a: Self, b: Self)
        ensures
            a.rank() == b.rank() ==> a == b,
    ;

    fn precedes(&self, other: &Self) -> (r: bool)
        ensures
            r == (self.rank() < other.rank()),
    ;
}

impl Ranked for IpAddr {
    /// Every 32-bit address stands before every 128-bit one; within a family
    /// the numeric value decides.
    open spec fn rank(self) -> int {
        match self {
            IpAddr::V4(a) => a.bits as int,
            IpAddr::V6(a) => 0x1_0000_0000int + a.bits,
        }
    }

    proof fn rank_is_injective(a: Self, b: Self) {
    }

    fn precedes(&self, other: &Self) -> (r: bool) {
        match (self, other) {
            (IpAddr::V4(a), IpAddr::V4(b)) => a.bits < b.bits,
            (IpAddr::V4(_), IpAddr::V6(_)) => true,
            (IpAddr::V6(_), IpAddr::V4(_)) => false,
            (IpAddr::V6(a), IpAddr::V6(b)) => a.bits < b.bits,
        }
    }
}

impl Ranked for SocketAddr {
    /// By address first, then by port, flow and link.
    open spec fn rank(self) -> int {
        ((self.ip.rank() * 0x1_0000 + self.port) * 0x1_0000_0000 + self.flowinfo) * 0x1_0000_0000
            + self.scope_id
    }

    proof fn rank_is_injective(a: Self, b: Self) {
        IpAddr::rank_is_injective(a.ip, b.ip);
    }

    fn precedes(&self, other: &Self) -> (r: bool) {
        if self.ip.precedes(&other.ip) {
            true
        } else if other.ip.precedes(&self.ip) {
            false
        } else {
            proof {
                IpAddr::rank_is_injective(self.ip, other.ip);
            }
            if self.port != other.port {
                self.port < other.port
            } else if self.flowinfo != other.flowinfo {
                self.flowinfo < other.flowinfo
            } else {
                self.scope_id < other.scope_id
            }
        }
    }
}

/// `sorted` with `x` put in its place, unless it is there already.
pub open spec fn insert_ranked<T: Ranked>(sorted: Seq<T>, x: T) -> Seq<T>
    decreases sorted.len(),
{
    if sorted.len() == 0 || sorted.last().rank() < x.rank() {
        sorted.push(x)
    } else if sorted.last().rank() == x.rank() {
        sorted
    } else {
        insert_ranked(sorted.drop_last(), x).push(sorted.last())
    }
}

/// The values of `s` in ascending order, each one once.
pub open spec fn sorted_distinct<T: Ranked>(s: Seq<T>) -> Seq<T>
    decreases s.len(),
{
    if s.len() == 0 {
        Seq::empty()
    } else {
        insert_ranked(sorted_distinct(s.drop_last()), s.last())
    }
}

pub open spec fn strictly_ascending<T: Ranked>(s: Seq<T>) -> bool {
    forall|i: int, j: int| 0 <= i < j < s.len() ==> #[trigger] s[i].rank() < #[trigger] s[j].rank()
}

proof fn lemma_insert_ranked<T: Ranked>(sorted: Seq<T>, x: T)
    requires
        strictly_ascending(sorted),
    ensures
        strictly_ascending(insert_ranked(sorted, x)),
        insert_ranked(sorted, x).contains(x),
        forall|y: T| #[trigger] insert_ranked(sorted, x).contains(y) <==> y == x || sorted.contains(y),
        insert_ranked(sorted, x).len() <= sorted.len() + 1,
    decreases sorted.len(),
{
    let out = insert_ranked(sorted, x);
    if sorted.len() == 0 || sorted.last().rank() < x.rank() {
        assert(out[sorted.len() as int] == x);
        assert forall|y: T| #[trigger] out.contains(y) <==> y == x || sorted.contains(y) by {
            if sorted.contains(y) {
                let k = choose|k: int| 0 <= k < sorted.len() && sorted[k] == y;
                assert(out[k] == y);
            }
        }
    } else if sorted.last().rank() == x.rank() {
        T::rank_is_injective(sorted.last(), x);
        assert(sorted[sorted.len() - 1] == x);
    } else {
        let rest = sorted.drop_last();
        let inner = insert_ranked(rest, x);
        lemma_insert_ranked(rest, x);
        assert forall|i: int| 0 <= i < inner.len() implies #[trigger] inner[i].rank()
            < sorted.last().rank() by {
            assert(inner.contains(inner[i]));
            if inner[i] != x {
                let k = choose|k: int| 0 <= k < rest.len() && rest[k] == inner[i];
                assert(sorted[k] == inner[i]);
            }
        }
        assert forall|y: T| #[trigger] out.contains(y) <==> y == x || sorted.contains(y) by {
            if out.contains(y) {
                let k = choose|k: int| 0 <= k < out.len() && out[k] == y;
                if k < inner.len() {
                    assert(inner[k] == y);
                    assert(inner.contains(y));
                    if y != x {
                        let m = choose|m: int| 0 <= m < rest.len() && rest[m] == y;
                        assert(sorted[m] == y);
                    }
                } else {
                    assert(sorted[sorted.len() - 1] == y);
                }
            }
            if y == x || sorted.contains(y) {
                if y != x {
                    let k = choose|k: int| 0 <= k < sorted.len() && sorted[k] == y;
                    if k < sorted.len() - 1 {
                        assert(rest[k] == y);
                        assert(rest.contains(y));
                        assert(inner.contains(y));
                        let m = choose|m: int| 0 <= m < inner.len() && inner[m] == y;
                        assert(out[m] == y);
                    } else {
                        assert(out[out.len() - 1] == y);
                    }
                } else {
                    assert(inner.contains(x));
                    let m = choose|m: int| 0 <= m < inner.len() && inner[m] == x;
                    assert(out[m] == x);
                }
            }
        }
        assert(out.contains(x));
    }
}

/// Sorting and removing repetitions keeps every value and adds none, and what
/// comes out is strictly ascending.
pub proof fn lemma_sorted_distinct<T: Ranked>(s: Seq<T>)
    ensures
        strictly_ascending(sorted_distinct(s)),
        forall|y: T| #[trigger] sorted_distinct(s).contains(y) <==> s.contains(y),
        sorted_distinct(s).len() <= s.len(),
        s.len() > 0 ==> sorted_distinct(s).len() > 0,
    decreases s.len(),
{
    if s.len() > 0 {
        let rest = s.drop_last();
        lemma_sorted_distinct(rest);
        lemma_insert_ranked(sorted_distinct(rest), s.last());
        let out = sorted_distinct(s);
        assert forall|y: T| #[trigger] out.contains(y) <==> s.contains(y) by {
            if s.contains(y) {
                let k = choose|k: int| 0 <= k < s.len() && s[k] == y;
                if k < s.len() - 1 {
                    assert(rest[k] == y);
                    assert(rest.contains(y));
                    assert(sorted_distinct(rest).contains(y));
                }
            }
            if out.contains(y) && y != s.last() {
                assert(sorted_distinct(rest).contains(y));
                let k = choose|k: int| 0 <= k < rest.len() && rest[k] == y;
                assert(s[k] == y);
            }
            if y == s.last() {
                assert(s[s.len() - 1] == y);
            }
        }
        assert(out.contains(s.last()));
    }
}

/// Sequences that are strictly ascending and hold the same values are equal:
/// the sorted form of a collection does not depend on the order it came in.
pub proof fn law_sorted_form_is_unique<T: Ranked>(a: Seq<T>, b: Seq<T>)
    requires
        forall|y: T| a.contains(y) <==> b.contains(y),
    ensures
        sorted_distinct(a) == sorted_distinct(b),
{
    lemma_sorted_distinct(a);
    lemma_sorted_distinct(b);
    let x = sorted_distinct(a);
    let z = sorted_distinct(b);
    assert forall|y: T| #[trigger] x.contains(y) <==> z.contains(y) by {
        assert(x.contains(y) <==> a.contains(y));
        assert(z.contains(y) <==> b.contains(y));
    }
    lemma_ascending_unique(x, z);
}

proof fn lemma_ascending_unique<T: Ranked>(x: Seq<T>, z: Seq<T>)
    requires
        strictly_ascending(x),
        strictly_ascending(z),
        forall|y: T| #[trigger] x.contains(y) <==> z.contains(y),
    ensures
        x == z,
    decreases x.len(),
{
    if x.len() == 0 {
        if z.len() > 0 {
            assert(z.contains(z[0]));
            assert(x.contains(z[0]));
        }
        assert(x =~= z);
    } else {
        assert(x.contains(x.last()));
        assert(z.contains(x.last()));
        let k = choose|k: int| 0 <= k < z.len() && z[k] == x.last();
        assert(z.contains(z.last()));
        assert(x.contains(z.last()));
        let m = choose|m: int| 0 <= m < x.len() && x[m] == z.last();
        if k < z.len() - 1 {
            assert(z[k].rank() < z[z.len() - 1].rank());
            if m < x.len() - 1 {
                assert(x[m].rank() < x[x.len() - 1].rank());
            }
        }
        assert(x.last() == z.last());
        let x1 = x.drop_last();
        let z1 = z.drop_last();
        assert forall|y: T| #[trigger] x1.contains(y) <==> z1.contains(y) by {
            if x1.contains(y) {
                let i = choose|i: int| 0 <= i < x1.len() && x1[i] == y;
                assert(x[i] == y);
                assert(x[i].rank() < x[x.len() - 1].rank());
                assert(x.contains(y));
                assert(z.contains(y));
                let j = choose|j: int| 0 <= j < z.len() && z[j] == y;
                assert(z1[j] == y);
            }
            if z1.contains(y) {
                let i = choose|i: int| 0 <= i < z1.len() && z1[i] == y;
                assert(z[i] == y);
                assert(z[i].rank() < z[z.len() - 1].rank());
                assert(z.contains(y));
                assert(x.contains(y));
                let j = choose|j: int| 0 <= j < x.len() && x[j] == y;
                assert(x1[j] == y);
            }
        }
        lemma_ascending_unique(x1, z1);
        assert(x =~= x1.push(x.last()));
        assert(z =~= z1.push(z.last()));
    }
}

/// Puts `x` into an ascending list, unless it is there already.
fn insert_ranked_into<T: Ranked>(sorted: &mut Vec<T>, x: T)
    ensures
        final(sorted)@ == insert_ranked(old(sorted)@, x),
{
    let mut at: usize = sorted.len();
    assert(sorted@.take(at as int) =~= sorted@);
    assert(sorted@.skip(at as int) =~= Seq::<T>::empty());
    let ghost whole = sorted@;
    assert(insert_ranked(whole, x) =~= insert_ranked(whole.take(at as int), x) + whole.skip(
        at as int,
    ));
    while at > 0 && x.precedes(&sorted[at - 1])
        invariant
            at <= sorted.len(),
            sorted@ == whole,
            insert_ranked(whole, x) == insert_ranked(whole.take(at as int), x) + whole.skip(
                at as int,
            ),
        decreases at,
    {
        proof {
            let head = whole.take(at as int);
            assert(head.drop_last() =~= whole.take(at - 1));
            assert(head.last() == whole[at - 1]);
            assert(insert_ranked(head, x) == insert_ranked(head.drop_last(), x).push(head.last()));
            assert(insert_ranked(head.drop_last(), x).push(head.last()) + whole.skip(at as int)
                =~= insert_ranked(head.drop_last(), x) + whole.skip(at - 1));
        }
        at = at - 1;
    }
    let ghost head = whole.take(at as int);
    if at > 0 && !sorted[at - 1].precedes(&x) {
        assert(head.last() == whole[at - 1]);
        assert(insert_ranked(head, x) == head);
        assert(head + whole.skip(at as int) =~= whole);
    } else {
        sorted.insert(at, x);
        proof {
            if at > 0 {
                assert(head.last() == whole[at - 1]);
            }
            assert(insert_ranked(head, x) == head.push(x));
            assert(sorted@ =~= head.push(x) + whole.skip(at as int));
        }
    }
}

/// The values of `items` in ascending order, each one once.
pub fn sort_distinct<T: Ranked>(items: &Vec<T>) -> (r: Vec<T>)
    ensures
        r@ == sorted_distinct(items@),
{
    let mut out: Vec<T> = Vec::new();
    let mut i: usize = 0;
    assert(items@.take(0) =~= Seq::<T>::empty());
    while i < items.len()
        invariant
            i <= items.len(),
            out@ == sorted_distinct(items@.take(i as int)),
        decreases items.len() - i,
    {
        insert_ranked_into(&mut out, items[i]);
        proof {
            let next = items@.take(i + 1);
            assert(next.drop_last() =~= items@.take(i as int));
            assert(next.last() == items@[i as int]);
        }
        i = i + 1;
    }
    assert(items@.take(items@.len() as int) =~= items@);
    out
}

/// What is sorted already stays as it is.
pub(crate) proof fn lemma_ascending_is_sorted<T: Ranked>(s: Seq<T>)
    ensures
        strictly_ascending(s) ==> sorted_distinct(s) == s,
        strictly_ascending(s) ==> forall|n: int|
            0 <= n <= s.len() ==> strictly_ascending(#[trigger] s.take(n)),
{
    if strictly_ascending(s) {
        lemma_sorted_distinct(s);
        lemma_ascending_unique(sorted_distinct(s), s);
    }
}

/// Sorting and leaving out repetitions keeps exactly the elements that were there, each
/// once, in ascending order: 32-bit addresses before 128-bit ones, then by number, then
/// by port.
pub proof fn law_sorting_keeps_every_address(s: Seq<SocketAddr>, a: SocketAddr, b: SocketAddr)
    ensures
        sorted_distinct(s).contains(a) <==> s.contains(a),
        forall|i: int, j: int|
            0 <= i < j < sorted_distinct(s).len() ==> #[trigger] sorted_distinct(s)[i]
                != #[trigger] sorted_distinct(s)[j],
        a.ip is V4 && b.ip is V6 ==> a.rank() < b.rank(),
        (a.ip matches IpAddr::V4(x) && b.ip matches IpAddr::V4(y) && x.bits < y.bits) ==> a.rank()
            < b.rank(),
        (a.ip matches IpAddr::V6(x) && b.ip matches IpAddr::V6(y) && x.bits < y.bits) ==> a.rank()
            < b.rank(),
        a.ip == b.ip && a.port < b.port ==> a.rank() < b.rank(),
{
    lemma_sorted_distinct(s);
    let t = sorted_distinct(s);
    assert forall|i: int, j: int| 0 <= i < j < t.len() implies #[trigger] t[i] != #[trigger] t[j] by {
        assert(t[i].rank() < t[j].rank());
    }
}

/// The octets of an address put together again give its number.
pub proof fn law_octets_of_a_v4_address(bits: u32)
    ensures
        ({
            let o = be_octets(bits as int, 4);
            o.len() == 4 && v4_value(o[0], o[1], o[2], o[3]) == bits
        }),
{
    reveal_with_fuel(pow256, 5);
    let v = bits as int;
    let o = be_octets(v, 4);
    assert(o[0] == (v / 0x100_0000) % 256);
    assert(o[1] == (v / 0x1_0000) % 256);
    assert(o[2] == (v / 0x100) % 256);
    vstd::arithmetic::div_mod::lemma_div_basics_2(v);
    assert(pow256(0) == 1);
    assert(o[3] == v % 256);
}

} // verus!
