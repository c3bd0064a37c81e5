//! Address prefixes, and which addresses the public network routes.

use vstd::arithmetic::power2::{
    lemma2_to64, lemma2_to64_rest, lemma_pow2_adds, lemma_pow2_pos, lemma_pow2_strictly_increases,
    lemma_pow2_unfold, pow2,
};
use vstd::prelude::*;

use crate::addr::{v4_value, IpAddr, Ipv4Addr, Ipv6Addr};

verus! {

/// The first `prefix` of `width` bits of the two numbers are the same.
pub open spec fn same_prefix(a: int, b: int, width: nat, prefix: nat) -> bool {
    prefix <= width && a / (pow2((width - prefix) as nat) as int) == b / (pow2(
        (width - prefix) as nat,
    ) as int)
}

/// Two to the power of `e`.
fn two_to(e: u8) -> (r: u128)
    requires
        e < 128,
    ensures
        r == pow2(e as nat),
        r > 0,
{
    let mut r: u128 = 1;
    let mut i: u8 = 0;
    proof {
        lemma2_to64();
        lemma2_to64_rest();
        lemma_pow2_adds(63, 64);
    }
    while i < e
        invariant
            i <= e < 128,
            r == pow2(i as nat),
            r > 0,
            pow2(127) == 0x8000_0000_0000_0000int * 0x1_0000_0000_0000_0000int,
        decreases e - i,
    {
        proof {
            lemma_pow2_unfold((i + 1) as nat);
            if i + 1 < 127 {
                lemma_pow2_strictly_increases((i + 1) as nat, 127);
            }
        }
        r = r * 2;
        i = i + 1;
    }
    r
}

/// Whether the first `prefix` bits are the same.
fn shares_prefix(a: u128, b: u128, width: u8, prefix: u8) -> (r: bool)
    requires
        width <= 128,
        width < 128 ==> a < pow2(width as nat) && b < pow2(width as nat),
    ensures
        r == same_prefix(a as int, b as int, width as nat, prefix as nat),
{
    if prefix > width {
        return false;
    }
    if prefix == 0 {
        proof {
            if width == 128 {
                lemma2_to64();
                lemma_pow2_adds(64, 64);
            }
            lemma_pow2_pos(width as nat);
            assert(a as int / pow2(width as nat) as int == 0) by (nonlinear_arith)
                requires
                    0 <= a < pow2(width as nat),
            ;
            assert(b as int / pow2(width as nat) as int == 0) by (nonlinear_arith)
                requires
                    0 <= b < pow2(width as nat),
            ;
        }
        return true;
    }
    let d: u128 = two_to(width - prefix);
    a / d == b / d
}

/// An address prefix.
#[derive(Clone, Copy, PartialEq, Eq, Structural, Debug, Hash)]
pub struct IpNet {
    pub addr: IpAddr,
    pub prefix: u8,
}

impl IpNet {
    /// The address is of the family of the prefix and starts with its bits.
    pub open spec fn covers(self, ip: IpAddr) -> bool {
        match (self.addr, ip) {
            (IpAddr::V4(n), IpAddr::V4(a)) => same_prefix(
                a.bits as int,
                n.bits as int,
                32,
                self.prefix as nat,
            ),
            (IpAddr::V6(n), IpAddr::V6(a)) => same_prefix(
                a.bits as int,
                n.bits as int,
                128,
                self.prefix as nat,
            ),
            _ => false,
        }
    }

    pub fn contains(&self, ip: &IpAddr) -> (r: bool)
        ensures
            r == self.covers(*ip),
    {
        proof {
            lemma2_to64();
        }
        match (self.addr, *ip) {
            (IpAddr::V4(n), IpAddr::V4(a)) => shares_prefix(
                a.bits as u128,
                n.bits as u128,
                32,
                self.prefix,
            ),
            (IpAddr::V6(n), IpAddr::V6(a)) => shares_prefix(a.bits, n.bits, 128, self.prefix),
            _ => false,
        }
    }
}

pub open spec fn covered(nets: Seq<IpNet>, ip: IpAddr) -> bool {
    exists|i: int| 0 <= i < nets.len() && (#[trigger] nets[i]).covers(ip)
}

/// Whether one of the prefixes covers the address.
pub fn any_contains(nets: &Vec<IpNet>, ip: &IpAddr) -> (r: bool)
    ensures
        r == covered(nets@, *ip),
{
    let mut i: usize = 0;
    while i < nets.len()
        invariant
            i <= nets.len(),
            forall|j: int| 0 <= j < i ==> !(#[trigger] nets@[j]).covers(*ip),
        decreases nets.len() - i,
    {
        if nets[i].contains(ip) {
            assert(nets@[i as int].covers(*ip));
            return true;
        }
        i = i + 1;
    }
    false
}

/// The bits of `value` with all but the first `prefix` of `width` cleared.
pub open spec fn truncated_bits(value: int, width: nat, prefix: nat) -> int {
    let d = pow2((width - prefix) as nat) as int;
    (value / d) * d
}

/// The address with all but its first `prefix` bits cleared.
pub(crate) fn truncate_bits(value: u128, width: u8, prefix: u8) -> (r: u128)
    requires
        prefix <= width <= 128,
        width < 128 ==> value < pow2(width as nat),
    ensures
        r == truncated_bits(value as int, width as nat, prefix as nat),
        r <= value,
{
    if prefix == 0 {
        proof {
            if width == 128 {
                lemma2_to64();
                lemma_pow2_adds(64, 64);
            }
            let d = pow2(width as nat) as int;
            assert((value as int / d) * d == 0) by (nonlinear_arith)
                requires
                    0 <= value < d,
            ;
        }
        return 0;
    }
    let d: u128 = two_to(width - prefix);
    proof {
        assert((value as int / d as int) * d as int <= value as int) by (nonlinear_arith)
            requires
                d > 0,
                value >= 0,
        ;
        assert(0 <= (value as int / d as int) * d as int) by (nonlinear_arith)
            requires
                d > 0,
                value >= 0,
        ;
    }
    (value / d) * d
}

pub open spec fn in_v4(bits: u32, a: u8, b: u8, c: u8, d: u8, prefix: nat) -> bool {
    same_prefix(bits as int, v4_value(a, b, c, d), 32, prefix)
}

/// The ranges that are set aside: this host, private, shared, loopback, link
/// local, protocol assignments, documentation, relay, benchmarks, multicast
/// and reserved.
pub open spec fn special_v4(bits: u32) -> bool {
    ||| in_v4(bits, 0, 0, 0, 0, 8)
    ||| in_v4(bits, 10, 0, 0, 0, 8)
    ||| in_v4(bits, 100, 64, 0, 0, 10)
    ||| in_v4(bits, 127, 0, 0, 0, 8)
    ||| in_v4(bits, 169, 254, 0, 0, 16)
    ||| in_v4(bits, 172, 16, 0, 0, 12)
    ||| in_v4(bits, 192, 0, 0, 0, 24)
    ||| in_v4(bits, 192, 0, 2, 0, 24)
    ||| in_v4(bits, 192, 88, 99, 0, 24)
    ||| in_v4(bits, 192, 168, 0, 0, 16)
    ||| in_v4(bits, 198, 18, 0, 0, 15)
    ||| in_v4(bits, 198, 51, 100, 0, 24)
    ||| in_v4(bits, 203, 0, 113, 0, 24)
    ||| in_v4(bits, 224, 0, 0, 0, 4)
    ||| in_v4(bits, 240, 0, 0, 0, 4)
}

fn in_v4_net(bits: u32, a: u8, b: u8, c: u8, d: u8, prefix: u8) -> (r: bool)
    ensures
        r == in_v4(bits, a, b, c, d, prefix as nat),
{
    proof {
        lemma2_to64();
    }
    let net = Ipv4Addr::new(a, b, c, d);
    shares_prefix(bits as u128, net.bits as u128, 32, prefix)
}

/// Whether the address lies in a range that is set aside.
pub fn is_special_v4(address: Ipv4Addr) -> (r: bool)
    ensures
        r == special_v4(address.bits),
{
    let n: u32 = address.bits;
    in_v4_net(n, 0, 0, 0, 0, 8) || in_v4_net(n, 10, 0, 0, 0, 8) || in_v4_net(n, 100, 64, 0, 0, 10)
        || in_v4_net(n, 127, 0, 0, 0, 8) || in_v4_net(n, 169, 254, 0, 0, 16) || in_v4_net(
        n,
        172,
        16,
        0,
        0,
        12,
    ) || in_v4_net(n, 192, 0, 0, 0, 24) || in_v4_net(n, 192, 0, 2, 0, 24) || in_v4_net(
        n,
        192,
        88,
        99,
        0,
        24,
    ) || in_v4_net(n, 192, 168, 0, 0, 16) || in_v4_net(n, 198, 18, 0, 0, 15) || in_v4_net(
        n,
        198,
        51,
        100,
        0,
        24,
    ) || in_v4_net(n, 203, 0, 113, 0, 24) || in_v4_net(n, 224, 0, 0, 0, 4) || in_v4_net(
        n,
        240,
        0,
        0,
        0,
        4,
    )
}

/// `::ffff:0:0/96`: an IPv4 address mapped into IPv6.
pub const NET_MAPPED: u128 = 0x0000_0000_0000_0000_0000_ffff_0000_0000;

/// `2002::/16`: an IPv4 address in the second and third group.
pub const NET_6TO4: u128 = 0x2002_0000_0000_0000_0000_0000_0000_0000;

/// `64:ff9b::/96`: an IPv4 address behind an address translator.
pub const NET_NAT64: u128 = 0x0064_ff9b_0000_0000_0000_0000_0000_0000;

/// `64:ff9b:1::/48`: translators for local use.
pub const NET_NAT64_LOCAL: u128 = 0x0064_ff9b_0001_0000_0000_0000_0000_0000;

/// `ff00::/8`: multicast.
pub const NET_MULTICAST: u128 = 0xff00_0000_0000_0000_0000_0000_0000_0000;

/// `fe80::/10`: link local.
pub const NET_LINK_LOCAL: u128 = 0xfe80_0000_0000_0000_0000_0000_0000_0000;

/// `fec0::/10`: site local, no longer in use.
pub const NET_SITE_LOCAL: u128 = 0xfec0_0000_0000_0000_0000_0000_0000_0000;

/// `fc00::/7`: unique local.
pub const NET_UNIQUE_LOCAL: u128 = 0xfc00_0000_0000_0000_0000_0000_0000_0000;

/// `2001:db8::/32`: documentation.
pub const NET_DOCUMENTATION: u128 = 0x2001_0db8_0000_0000_0000_0000_0000_0000;

/// `100::/64`: discard only.
pub const NET_DISCARD: u128 = 0x0100_0000_0000_0000_0000_0000_0000_0000;

/// `2001:2::/32`: benchmarks.
pub const NET_BENCHMARK: u128 = 0x2001_0002_0000_0000_0000_0000_0000_0000;

pub open spec fn in_v6(bits: u128, net: u128, prefix: nat) -> bool {
    same_prefix(bits as int, net as int, 128, prefix)
}

fn in_v6_net(bits: u128, net: u128, prefix: u8) -> (r: bool)
    ensures
        r == in_v6(bits, net, prefix as nat),
{
    shares_prefix(bits, net, 128, prefix)
}

/// The IPv4 address that an IPv6 address carries, if it is of a form that
/// carries one: mapped, 6to4, behind a translator, or with 96 leading zero
/// bits.
pub open spec fn embedded(bits: u128) -> Option<u32> {
    if in_v6(bits, NET_MAPPED, 96) {
        Some((bits % 0x1_0000_0000) as u32)
    } else if in_v6(bits, NET_6TO4, 16) {
        Some((bits / 0x1_0000_0000_0000_0000_0000 % 0x1_0000_0000) as u32)
    } else if in_v6(bits, NET_NAT64, 96) || in_v6(bits, 0, 96) {
        Some((bits % 0x1_0000_0000) as u32)
    } else {
        None
    }
}

pub fn embedded_v4(address: Ipv6Addr) -> (r: Option<Ipv4Addr>)
    ensures
        r matches Some(a) ==> embedded(address.bits) == Some(a.bits),
        r is None ==> embedded(address.bits) is None,
{
    let n: u128 = address.bits;
    if in_v6_net(n, NET_MAPPED, 96) {
        return Some(Ipv4Addr { bits: (n % 0x1_0000_0000) as u32 });
    }
    if in_v6_net(n, NET_6TO4, 16) {
        return Some(
            Ipv4Addr { bits: (n / 0x1_0000_0000_0000_0000_0000 % 0x1_0000_0000) as u32 },
        );
    }
    if in_v6_net(n, NET_NAT64, 96) || in_v6_net(n, 0, 96) {
        return Some(Ipv4Addr { bits: (n % 0x1_0000_0000) as u32 });
    }
    None
}

/// The IPv6 ranges that are set aside.
pub open spec fn special_v6(bits: u128) -> bool {
    ||| bits <= 1
    ||| in_v6(bits, NET_MULTICAST, 8)
    ||| in_v6(bits, NET_LINK_LOCAL, 10)
    ||| in_v6(bits, NET_SITE_LOCAL, 10)
    ||| in_v6(bits, NET_UNIQUE_LOCAL, 7)
    ||| in_v6(bits, NET_DOCUMENTATION, 32)
    ||| in_v6(bits, NET_DISCARD, 64)
    ||| in_v6(bits, NET_BENCHMARK, 32)
    ||| in_v6(bits, NET_NAT64_LOCAL, 48)
}

/// The public network routes the address: it lies in no range that is set
/// aside, and neither does an IPv4 address that it carries.
pub open spec fn routable(ip: IpAddr) -> bool {
    match ip {
        IpAddr::V4(a) => !special_v4(a.bits),
        IpAddr::V6(a) => match embedded(a.bits) {
            Some(b) => !special_v4(b),
            None => !special_v6(a.bits),
        },
    }
}

/// Whether the public network routes the address. An IPv6 address that carries
/// an IPv4 address is judged by the latter, so that no address of an inner
/// network passes in disguise.
pub fn is_globally_routable(ip: IpAddr) -> (r: bool)
    ensures
        r == routable(ip),
{
    match ip {
        IpAddr::V4(address) => !is_special_v4(address),
        IpAddr::V6(address) => {
            if let Some(inner) = embedded_v4(address) {
                return !is_special_v4(inner);
            }
            let n: u128 = address.bits;
            !(n <= 1 || in_v6_net(n, NET_MULTICAST, 8) || in_v6_net(n, NET_LINK_LOCAL, 10)
                || in_v6_net(n, NET_SITE_LOCAL, 10) || in_v6_net(n, NET_UNIQUE_LOCAL, 7)
                || in_v6_net(n, NET_DOCUMENTATION, 32) || in_v6_net(n, NET_DISCARD, 64)
                || in_v6_net(n, NET_BENCHMARK, 32) || in_v6_net(n, NET_NAT64_LOCAL, 48))
        },
    }
}

/// An address that carries an IPv4 address is routed exactly when that one is.
pub proof fn law_embedded_addresses_are_judged_alike(v6: Ipv6Addr, v4: Ipv4Addr)
    requires
        embedded(v6.bits) == Some(v4.bits),
    ensures
        routable(IpAddr::V6(v6)) == routable(IpAddr::V4(v4)),
{
}

/// Bit `k` of a number, from the least significant one.
pub open spec fn bit(v: int, k: int) -> int {
    v / (pow2(k as nat) as int) % 2
}

proof fn lemma_one_more_bit(a: int, b: int, width: nat, p: nat)
    requires
        0 <= a,
        0 <= b,
        p < width,
    ensures
        same_prefix(a, b, width, p + 1) <==> same_prefix(a, b, width, p) && bit(
            a,
            width - 1 - p,
        ) == bit(b, width - 1 - p),
{
    let e = (width - 1 - p) as nat;
    let d = pow2(e) as int;
    lemma_pow2_pos(e);
    lemma_pow2_unfold(e + 1);
    assert((width - p) as nat == e + 1);
    assert(pow2(e + 1) as int == d * 2);
    vstd::arithmetic::div_mod::lemma_div_denominator(a, d, 2);
    vstd::arithmetic::div_mod::lemma_div_denominator(b, d, 2);
    assert(a / (pow2(e + 1) as int) == (a / d) / 2);
    assert(b / (pow2(e + 1) as int) == (b / d) / 2);
}

proof fn lemma_prefix_bits(a: int, b: int, width: nat, p: nat)
    requires
        0 <= a < pow2(width),
        0 <= b < pow2(width),
        p <= width,
    ensures
        same_prefix(a, b, width, p) <==> forall|k: int|
            width - p <= k < width ==> #[trigger] bit(a, k) == bit(b, k),
    decreases p,
{
    if p == 0 {
        vstd::arithmetic::div_mod::lemma_basic_div(a, pow2(width) as int);
        vstd::arithmetic::div_mod::lemma_basic_div(b, pow2(width) as int);
    } else {
        let q = (p - 1) as nat;
        lemma_prefix_bits(a, b, width, q);
        lemma_one_more_bit(a, b, width, q);
        if same_prefix(a, b, width, p) {
            assert forall|k: int| width - p <= k < width implies #[trigger] bit(a, k) == bit(
                b,
                k,
            ) by {
                if k != width - p {
                    assert(width - q <= k);
                }
            }
        } else if same_prefix(a, b, width, q) {
            assert(bit(a, width - p) != bit(b, width - p));
        } else {
            let k = choose|k: int| width - q <= k < width && #[trigger] bit(a, k) != bit(b, k);
            assert(width - p <= k);
        }
    }
}

/// A prefix covers an address exactly if both are of one family, the length fits the
/// family, and each of its first so many bits is the same: 32 bits the one way, 128 the
/// other. What stands behind these bits never matters, and length 0 covers the family.
pub proof fn law_a_prefix_covers_what_starts_with_its_bits(net: IpNet, ip: IpAddr)
    ensures
        match (net.addr, ip) {
            (IpAddr::V4(n), IpAddr::V4(a)) => net.covers(ip) <==> net.prefix <= 32 && forall|
                k: int,
            |
                32 - net.prefix <= k < 32 ==> #[trigger] bit(a.bits as int, k) == bit(
                    n.bits as int,
                    k,
                ),
            (IpAddr::V6(n), IpAddr::V6(a)) => net.covers(ip) <==> net.prefix <= 128 && forall|
                k: int,
            |
                128 - net.prefix <= k < 128 ==> #[trigger] bit(a.bits as int, k) == bit(
                    n.bits as int,
                    k,
                ),
            _ => !net.covers(ip),
        },
        net.prefix == 0 ==> (net.covers(ip) <==> (net.addr is V4 <==> ip is V4)),
        net.prefix <= 32 && ip == net.addr ==> net.covers(ip),
{
    lemma2_to64();
    lemma_pow2_adds(64, 64);
    match (net.addr, ip) {
        (IpAddr::V4(n), IpAddr::V4(a)) => {
            if net.prefix <= 32 {
                lemma_prefix_bits(a.bits as int, n.bits as int, 32, net.prefix as nat);
            }
        },
        (IpAddr::V6(n), IpAddr::V6(a)) => {
            if net.prefix <= 128 {
                lemma_prefix_bits(a.bits as int, n.bits as int, 128, net.prefix as nat);
            }
        },
        _ => {},
    }
}

/// A shorter prefix of the same address covers whatever a longer one covers.
pub proof fn law_shorter_prefixes_cover_more(net: IpNet, wider: IpNet, ip: IpAddr)
    requires
        wider.addr == net.addr,
        wider.prefix <= net.prefix,
        net.covers(ip),
    ensures
        wider.covers(ip),
{
    law_a_prefix_covers_what_starts_with_its_bits(net, ip);
    law_a_prefix_covers_what_starts_with_its_bits(wider, ip);
}

proof fn lemma_covers_range(v: int, base: int, width: nat, p: nat, size: int)
    requires
        p <= width,
        0 <= v,
        0 <= base,
        size == pow2((width - p) as nat),
        base % size == 0,
    ensures
        same_prefix(v, base, width, p) <==> base <= v < base + size,
{
    lemma_pow2_pos((width - p) as nat);
    vstd::arithmetic::div_mod::lemma_fundamental_div_mod(v, size);
    vstd::arithmetic::div_mod::lemma_fundamental_div_mod(base, size);
    vstd::arithmetic::div_mod::lemma_mod_bound(v, size);
    let q = base / size;
    assert(base == size * q);
    assert(size * q == q * size) by (nonlinear_arith);
    if v / size == q {
    } else if base <= v < base + size {
        assert(v / size == q) by {
            vstd::arithmetic::div_mod::lemma_fundamental_div_mod_converse(v, size, q, v - base);
        }
    }
}

/// The ranges of IPv4 that are set aside, as numbers: from the first address of each to
/// the one behind its last.
pub proof fn law_special_v4_ranges(n: u32)
    ensures
        special_v4(n) <==> {
            ||| n < 0x0100_0000
            ||| 0x0a00_0000 <= n < 0x0b00_0000
            ||| 0x6440_0000 <= n < 0x6480_0000
            ||| 0x7f00_0000 <= n < 0x8000_0000
            ||| 0xa9fe_0000 <= n < 0xa9ff_0000
            ||| 0xac10_0000 <= n < 0xac20_0000
            ||| 0xc000_0000 <= n < 0xc000_0100
            ||| 0xc000_0200 <= n < 0xc000_0300
            ||| 0xc058_6300 <= n < 0xc058_6400
            ||| 0xc0a8_0000 <= n < 0xc0a9_0000
            ||| 0xc612_0000 <= n < 0xc614_0000
            ||| 0xc633_6400 <= n < 0xc633_6500
            ||| 0xcb00_7100 <= n < 0xcb00_7200
            ||| 0xe000_0000 <= n
        },
{
    lemma2_to64();
    let v = n as int;
    lemma_covers_range(v, 0, 32, 8, 0x100_0000);
    lemma_covers_range(v, 0x0a00_0000, 32, 8, 0x100_0000);
    lemma_covers_range(v, 0x6440_0000, 32, 10, 0x40_0000);
    lemma_covers_range(v, 0x7f00_0000, 32, 8, 0x100_0000);
    lemma_covers_range(v, 0xa9fe_0000, 32, 16, 0x1_0000);
    lemma_covers_range(v, 0xac10_0000, 32, 12, 0x10_0000);
    lemma_covers_range(v, 0xc000_0000, 32, 24, 0x100);
    lemma_covers_range(v, 0xc000_0200, 32, 24, 0x100);
    lemma_covers_range(v, 0xc058_6300, 32, 24, 0x100);
    lemma_covers_range(v, 0xc0a8_0000, 32, 16, 0x1_0000);
    lemma_covers_range(v, 0xc612_0000, 32, 15, 0x2_0000);
    lemma_covers_range(v, 0xc633_6400, 32, 24, 0x100);
    lemma_covers_range(v, 0xcb00_7100, 32, 24, 0x100);
    lemma_covers_range(v, 0xe000_0000, 32, 4, 0x1000_0000);
    lemma_covers_range(v, 0xf000_0000, 32, 4, 0x1000_0000);
}

proof fn lemma_v6_range(v: u128, base: u128, p: nat, size: int)
    requires
        p <= 128,
        size == pow2((128 - p) as nat),
        base as int % size == 0,
    ensures
        in_v6(v, base, p) <==> base <= v < base + size,
{
    lemma_covers_range(v as int, base as int, 128, p, size);
}

proof fn lemma_large_powers()
    ensures
        pow2(64) == 0x1_0000_0000_0000_0000int,
        pow2(80) == 0x1_0000_0000_0000_0000_0000int,
        pow2(96) == 0x1_0000_0000_0000_0000_0000_0000int,
        pow2(112) == 0x1_0000_0000_0000_0000_0000_0000_0000int,
        pow2(118) == 0x40_0000_0000_0000_0000_0000_0000_0000int,
        pow2(120) == 0x100_0000_0000_0000_0000_0000_0000_0000int,
        pow2(121) == 0x200_0000_0000_0000_0000_0000_0000_0000int,
{
    lemma2_to64();
    lemma2_to64_rest();
    lemma_pow2_adds(64, 16);
    lemma_pow2_adds(64, 32);
    lemma_pow2_adds(64, 48);
    lemma_pow2_adds(64, 54);
    lemma_pow2_adds(64, 56);
    lemma_pow2_adds(64, 57);
}

/// Which IPv6 addresses carry an IPv4 address, and which one: those mapped, those behind
/// a translator and those that begin with 96 zero bits carry it in their last 32 bits,
/// those of 6to4 behind their first 16. No other address carries one.
pub proof fn law_where_an_address_is_carried(n: u128)
    ensures
        0xffff_0000_0000 <= n < 0x1_0000_0000_0000 || 0x0064_ff9b_0000_0000_0000_0000_0000_0000
            <= n < 0x0064_ff9b_0000_0000_0000_0001_0000_0000 || n < 0x1_0000_0000 ==> (embedded(n)
            matches Some(x) && (n - x) as int % 0x1_0000_0000 == 0),
        0x2002_0000_0000_0000_0000_0000_0000_0000 <= n
            < 0x2003_0000_0000_0000_0000_0000_0000_0000 ==> (embedded(n) matches Some(x) && {
            let rest = n - 0x2002_0000_0000_0000_0000_0000_0000_0000 - x
                * 0x1_0000_0000_0000_0000_0000;
            0 <= rest < 0x1_0000_0000_0000_0000_0000
        }),
        embedded(n) is Some ==> {
            ||| n < 0x1_0000_0000
            ||| 0xffff_0000_0000 <= n < 0x1_0000_0000_0000
            ||| 0x0064_ff9b_0000_0000_0000_0000_0000_0000 <= n
                < 0x0064_ff9b_0000_0000_0000_0001_0000_0000
            ||| 0x2002_0000_0000_0000_0000_0000_0000_0000 <= n
                < 0x2003_0000_0000_0000_0000_0000_0000_0000
        },
{
    lemma2_to64();
    lemma_large_powers();
    lemma_v6_range(n, NET_MAPPED, 96, 0x1_0000_0000);
    lemma_v6_range(n, NET_6TO4, 16, pow2(112) as int);
    lemma_v6_range(n, NET_NAT64, 96, 0x1_0000_0000);
    lemma_v6_range(n, 0, 96, 0x1_0000_0000);
}

/// The ranges of IPv6 that are set aside, as numbers. An address of IPv6 is routed
/// exactly if it lies in none of them, or, where it carries an IPv4 address, if that one
/// lies in no range that is set aside there.
pub proof fn law_special_v6_ranges(n: u128)
    ensures
        special_v6(n) <==> {
            ||| n <= 1
            ||| 0x0064_ff9b_0001_0000_0000_0000_0000_0000 <= n
                < 0x0064_ff9b_0002_0000_0000_0000_0000_0000
            ||| 0x0100_0000_0000_0000_0000_0000_0000_0000 <= n
                < 0x0100_0000_0000_0001_0000_0000_0000_0000
            ||| 0x2001_0002_0000_0000_0000_0000_0000_0000 <= n
                < 0x2001_0003_0000_0000_0000_0000_0000_0000
            ||| 0x2001_0db8_0000_0000_0000_0000_0000_0000 <= n
                < 0x2001_0db9_0000_0000_0000_0000_0000_0000
            ||| 0xfc00_0000_0000_0000_0000_0000_0000_0000 <= n
                < 0xfe00_0000_0000_0000_0000_0000_0000_0000
            ||| 0xfe80_0000_0000_0000_0000_0000_0000_0000 <= n
        },
        routable(IpAddr::V6(Ipv6Addr { bits: n })) <==> if embedded(n) is Some {
            !special_v4(embedded(n)->0)
        } else {
            !special_v6(n)
        },
        forall|m: u32|
            routable(IpAddr::V4(Ipv4Addr { bits: m })) <==> !#[trigger] special_v4(m),
{
    lemma2_to64();
    lemma_large_powers();
    lemma_v6_range(n, NET_MULTICAST, 8, pow2(120) as int);
    lemma_v6_range(n, NET_LINK_LOCAL, 10, pow2(118) as int);
    lemma_v6_range(n, NET_SITE_LOCAL, 10, pow2(118) as int);
    lemma_v6_range(n, NET_UNIQUE_LOCAL, 7, pow2(121) as int);
    lemma_v6_range(n, NET_DOCUMENTATION, 32, pow2(96) as int);
    lemma_v6_range(n, NET_DISCARD, 64, pow2(64) as int);
    lemma_v6_range(n, NET_BENCHMARK, 32, pow2(96) as int);
    lemma_v6_range(n, NET_NAT64_LOCAL, 48, pow2(80) as int);
}

/// Cutting an address down to a prefix keeps its first bits and clears the others: the
/// result shares the prefix, is a multiple of the size of the network, and no smaller
/// part of the address than the network's size is lost.
pub proof fn law_cutting_keeps_the_prefix(value: int, width: nat, prefix: nat)
    requires
        0 <= value < pow2(width),
        prefix <= width,
    ensures
        ({
            let t = truncated_bits(value, width, prefix);
            let size = pow2((width - prefix) as nat) as int;
            &&& t % size == 0
            &&& t <= value < t + size
            &&& 0 <= t
            &&& forall|k: int| width - prefix <= k < width ==> #[trigger] bit(t, k) == bit(value, k)
        }),
{
    let size = pow2((width - prefix) as nat) as int;
    lemma_pow2_pos((width - prefix) as nat);
    vstd::arithmetic::div_mod::lemma_fundamental_div_mod(value, size);
    vstd::arithmetic::div_mod::lemma_mod_bound(value, size);
    vstd::arithmetic::div_mod::lemma_div_pos_is_pos(value, size);
    let q = value / size;
    let t = truncated_bits(value, width, prefix);
    assert(t == q * size);
    assert(q * size == size * q) by (nonlinear_arith);
    vstd::arithmetic::div_mod::lemma_mod_multiples_basic(q, size);
    vstd::arithmetic::div_mod::lemma_div_multiples_vanish(q, size);
    assert(0 <= q * size) by (nonlinear_arith)
        requires
            0 <= q,
            0 < size,
    ;
    assert(t / size == value / size);
    lemma_prefix_bits(t, value, width, prefix);
}

/// A list covers what any of its prefixes covers, and nothing else: one more prefix adds what
/// that prefix covers, and an empty list covers nothing.
pub proof fn law_a_list_covers_what_any_prefix_covers(nets: Seq<IpNet>, net: IpNet, ip: IpAddr)
    ensures
        !covered(Seq::empty(), ip),
        covered(nets.push(net), ip) <==> covered(nets, ip) || net.covers(ip),
        forall|i: int| 0 <= i < nets.len() && (#[trigger] nets[i]).covers(ip) ==> covered(nets, ip),
{
    let all = nets.push(net);
    if net.covers(ip) {
        assert(all[nets.len() as int].covers(ip));
    }
    if covered(nets, ip) {
        let i = choose|i: int| 0 <= i < nets.len() && (#[trigger] nets[i]).covers(ip);
        assert(all[i].covers(ip));
    }
    if covered(all, ip) {
        let i = choose|i: int| 0 <= i < all.len() && (#[trigger] all[i]).covers(ip);
        if i < nets.len() {
            assert(nets[i].covers(ip));
        }
    }
}

} // verus!
