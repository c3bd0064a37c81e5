//! A limit on how often one network may ask.

use vstd::arithmetic::power2::lemma2_to64;
use vstd::prelude::*;

use crate::addr::{IpAddr, Ipv4Addr, Ipv6Addr};
use crate::bucket::{TokenBucket, SHARDS};
use crate::net::{any_contains, covered, same_prefix, truncate_bits, truncated_bits, IpNet};
use crate::rate::{ask, asked, RateDecision};
use crate::transport::ClientInfo;

verus! {

/// The network of an address: the address with all but its first bits cleared.
pub open spec fn network_of(ip: IpAddr, v4_prefix: nat, v6_prefix: nat) -> IpAddr {
    match ip {
        IpAddr::V4(a) => IpAddr::V4(
            Ipv4Addr { bits: truncated_bits(a.bits as int, 32, v4_prefix) as u32 },
        ),
        IpAddr::V6(a) => IpAddr::V6(
            Ipv6Addr { bits: truncated_bits(a.bits as int, 128, v6_prefix) as u128 },
        ),
    }
}

/// How many bits of an address name its network.
#[derive(Clone, Copy)]
struct PrefixLengths {
    v4: u8,
    v6: u8,
}

impl PrefixLengths {
    #[verifier::type_invariant]
    spec fn well_formed(self) -> bool {
        self.v4 <= 32 && self.v6 <= 128
    }
}

/// One share for each network, so that a whole prefix of addresses is worth no
/// more than one of them.
pub struct SubnetRateLimiter {
    inner: TokenBucket<IpAddr>,
    lengths: PrefixLengths,
    allow: Vec<IpNet>,
}

impl SubnetRateLimiter {
    pub closed spec fn bucket(&self) -> TokenBucket<IpAddr> {
        self.inner
    }

    pub closed spec fn prefixes(&self) -> (u8, u8) {
        (self.lengths.v4, self.lengths.v6)
    }

    /// The prefixes that are not limited.
    pub closed spec fn exempt(&self) -> Seq<IpNet> {
        self.allow@
    }

    /// A limiter; none where the rate is 0, which stands for no limit. A prefix
    /// longer than an address is cut to its length.
    pub fn new(per_second: u32, burst: u32, v4_prefix: u8, v6_prefix: u8) -> (r: Option<Self>)
        ensures
            r is None <==> per_second == 0,
            r matches Some(t) ==> {
                &&& t.bucket().rate() == per_second
                &&& t.bucket().burst() == if burst >= per_second {
                    burst
                } else {
                    per_second
                }
                &&& forall|i: int| 0 <= i < SHARDS ==> (#[trigger] t.bucket().shard(i)).len() == 0
                &&& t.prefixes().0 == if v4_prefix <= 32 {
                    v4_prefix
                } else {
                    32
                }
                &&& t.prefixes().1 == if v6_prefix <= 128 {
                    v6_prefix
                } else {
                    128
                }
                &&& t.exempt().len() == 0
            },
    {
        let lengths = PrefixLengths {
            v4: if v4_prefix <= 32 {
                v4_prefix
            } else {
                32
            },
            v6: if v6_prefix <= 128 {
                v6_prefix
            } else {
                128
            },
        };
        match TokenBucket::new(per_second, burst) {
            Some(inner) => Some(SubnetRateLimiter { inner, lengths, allow: Vec::new() }),
            None => None,
        }
    }

    /// The same limiter with these prefixes exempt.
    pub fn with_allow(self, allow: Vec<IpNet>) -> (r: Self)
        ensures
            r.bucket() == self.bucket(),
            r.prefixes() == self.prefixes(),
            r.exempt() == allow@,
    {
        SubnetRateLimiter { inner: self.inner, lengths: self.lengths, allow }
    }

    /// The address under which the share of `ip` is kept.
    pub fn key(&self, ip: IpAddr) -> (r: IpAddr)
        ensures
            r == network_of(ip, self.prefixes().0 as nat, self.prefixes().1 as nat),
    {
        proof {
            use_type_invariant(&self.lengths);
            lemma2_to64();
        }
        match ip {
            IpAddr::V4(a) => IpAddr::V4(
                Ipv4Addr { bits: truncate_bits(a.bits as u128, 32, self.lengths.v4) as u32 },
            ),
            IpAddr::V6(a) => IpAddr::V6(
                Ipv6Addr { bits: truncate_bits(a.bits, 128, self.lengths.v6) },
            ),
        }
    }

    /// An address that is exempt, as it stands, is permitted and costs nothing;
    /// any other one takes a token of the share of its network. `hash` is a
    /// number that is the same each time for one network.
    pub fn check(&mut self, client: &ClientInfo, hash: u64, now: u64) -> (r: RateDecision)
        ensures
            final(self).exempt() == old(self).exempt(),
            final(self).prefixes() == old(self).prefixes(),
            covered(old(self).exempt(), client.source_ip) ==> r == RateDecision::Permit
                && final(self).bucket() == old(self).bucket(),
            !covered(old(self).exempt(), client.source_ip) ==> asked(
                old(self).bucket(),
                final(self).bucket(),
                network_of(
                    client.source_ip,
                    old(self).prefixes().0 as nat,
                    old(self).prefixes().1 as nat,
                ),
                hash,
                now,
                r,
            ),
    {
        if any_contains(&self.allow, &client.source_ip) {
            return RateDecision::Permit;
        }
        let key = self.key(client.source_ip);
        ask(&mut self.inner, key, hash, now)
    }
}

/// Two addresses of one family share what they may use exactly if their first
/// bits are the same.
pub proof fn law_a_network_has_one_share(
    a: Ipv4Addr,
    b: Ipv4Addr,
    c: Ipv6Addr,
    d: Ipv6Addr,
    p: nat,
    q: nat,
)
    requires
        p <= 32,
        q <= 128,
    ensures
        network_of(IpAddr::V4(a), p, q) == network_of(IpAddr::V4(b), p, q) <==> same_prefix(
            a.bits as int,
            b.bits as int,
            32,
            p,
        ),
        network_of(IpAddr::V6(c), p, q) == network_of(IpAddr::V6(d), p, q) <==> same_prefix(
            c.bits as int,
            d.bits as int,
            128,
            q,
        ),
{
    lemma_truncation(a.bits as int, b.bits as int, 32, p);
    lemma_truncation(c.bits as int, d.bits as int, 128, q);
}

proof fn lemma_truncation(x: int, y: int, width: nat, prefix: nat)
    requires
        prefix <= width,
        x >= 0,
        y >= 0,
    ensures
        0 <= truncated_bits(x, width, prefix) <= x,
        0 <= truncated_bits(y, width, prefix) <= y,
        truncated_bits(x, width, prefix) == truncated_bits(y, width, prefix) <==> same_prefix(
            x,
            y,
            width,
            prefix,
        ),
{
    let d = vstd::arithmetic::power2::pow2((width - prefix) as nat) as int;
    vstd::arithmetic::power2::lemma_pow2_pos((width - prefix) as nat);
    let m = x / d;
    let n = y / d;
    assert(0 <= m * d <= x) by (nonlinear_arith)
        requires
            d > 0,
            x >= 0,
            m == x / d,
    ;
    assert(0 <= n * d <= y) by (nonlinear_arith)
        requires
            d > 0,
            y >= 0,
            n == y / d,
    ;
    assert(m * d == n * d ==> m == n) by (nonlinear_arith)
        requires
            d > 0,
    ;
}

/// The network of an address is of the same family and covers the address, and every
/// address that it covers has the same network: the share of a prefix is used by the
/// addresses of that prefix, and by no other.
pub proof fn law_a_network_covers_its_addresses(a: Ipv4Addr, c: Ipv6Addr, p: u8, q: u8)
    requires
        p <= 32,
        q <= 128,
    ensures
        network_of(IpAddr::V4(a), p as nat, q as nat) matches IpAddr::V4(n) && {
            &&& n.bits as int % vstd::arithmetic::power2::pow2((32 - p) as nat) as int == 0
            &&& n.bits <= a.bits < n.bits + vstd::arithmetic::power2::pow2((32 - p) as nat)
            &&& forall|k: int|
                32 - p <= k < 32 ==> #[trigger] crate::net::bit(n.bits as int, k)
                    == crate::net::bit(a.bits as int, k)
        },
        network_of(IpAddr::V6(c), p as nat, q as nat) matches IpAddr::V6(n) && {
            &&& n.bits as int % vstd::arithmetic::power2::pow2((128 - q) as nat) as int == 0
            &&& n.bits <= c.bits < n.bits + vstd::arithmetic::power2::pow2((128 - q) as nat)
            &&& forall|k: int|
                128 - q <= k < 128 ==> #[trigger] crate::net::bit(n.bits as int, k)
                    == crate::net::bit(c.bits as int, k)
        },
{
    lemma2_to64();
    vstd::arithmetic::power2::lemma_pow2_adds(64, 64);
    crate::net::law_cutting_keeps_the_prefix(a.bits as int, 32, p as nat);
    crate::net::law_cutting_keeps_the_prefix(c.bits as int, 128, q as nat);
}

} // verus!
