//! A limit on how often one address may ask.

use vstd::prelude::*;

use crate::addr::IpAddr;
use crate::bucket::{level_of, spent, Bucket, TokenBucket, CAP_PER_SHARD, SHARDS, TOKEN};
use crate::lru::{stored, CacheKey};
use crate::net::{any_contains, covered, IpNet};
use crate::transport::ClientInfo;

verus! {

#[derive(Clone, Copy, PartialEq, Eq, Structural, Debug)]
pub enum RateDecision {
    Permit,
    Throttle,
}

impl CacheKey for IpAddr {
    fn same_key(&self, other: &Self) -> (r: bool) {
        *self == *other
    }
}

/// What asking once under `key` at `now` does to a limiter, and what comes of it.
pub open spec fn asked(
    before: TokenBucket<IpAddr>,
    after: TokenBucket<IpAddr>,
    key: IpAddr,
    hash: u64,
    now: u64,
    r: RateDecision,
) -> bool {
    let i = hash as int % SHARDS as int;
    let held = level_of(before.shard(i), key, before.rate(), before.burst(), now);
    &&& r == if held >= TOKEN {
        RateDecision::Permit
    } else {
        RateDecision::Throttle
    }
    &&& after.rate() == before.rate()
    &&& after.burst() == before.burst()
    &&& after.shard(i) == stored(
        before.shard(i),
        CAP_PER_SHARD as int,
        key,
        Bucket { tokens: spent(held) as u64, last: now },
    )
    &&& forall|j: int|
        0 <= j < SHARDS && j != i ==> #[trigger] after.shard(j) == before.shard(j)
}

/// Asks a limiter once.
pub(crate) fn ask(limiter: &mut TokenBucket<IpAddr>, key: IpAddr, hash: u64, now: u64) -> (r:
    RateDecision)
    ensures
        asked(*old(limiter), *final(limiter), key, hash, now, r),
{
    if limiter.check(&key, hash, now) {
        RateDecision::Permit
    } else {
        RateDecision::Throttle
    }
}

/// One share for each address.
pub struct KeyedRateLimiter {
    pub inner: TokenBucket<IpAddr>,
    /// Prefixes that are not limited.
    pub allow: Vec<IpNet>,
}

impl KeyedRateLimiter {
    /// A limiter; none where the rate is 0, which stands for no limit.
    pub fn new(per_second: u32, burst: u32) -> (r: Option<Self>)
        ensures
            r is None <==> per_second == 0,
            r matches Some(t) ==> {
                &&& t.inner.rate() == per_second
                &&& t.inner.burst() == if burst >= per_second {
                    burst
                } else {
                    per_second
                }
                &&& forall|i: int| 0 <= i < SHARDS ==> (#[trigger] t.inner.shard(i)).len() == 0
                &&& t.allow@.len() == 0
            },
    {
        match TokenBucket::new(per_second, burst) {
            Some(inner) => Some(KeyedRateLimiter { inner, allow: Vec::new() }),
            None => None,
        }
    }

    /// The same limiter with these prefixes exempt.
    pub fn with_allow(self, allow: Vec<IpNet>) -> (r: Self)
        ensures
            r == (KeyedRateLimiter { allow, ..self }),
    {
        KeyedRateLimiter { inner: self.inner, allow }
    }

    /// An address that is exempt is permitted and costs nothing; any other one
    /// takes a token of its share. `hash` is a number that is the same each time
    /// for one address.
    pub fn check(&mut self, client: &ClientInfo, hash: u64, now: u64) -> (r: RateDecision)
        ensures
            final(self).allow == old(self).allow,
            covered(old(self).allow@, client.source_ip) ==> r == RateDecision::Permit
                && *final(self) == *old(self),
            !covered(old(self).allow@, client.source_ip) ==> asked(
                old(self).inner,
                final(self).inner,
                client.source_ip,
                hash,
                now,
                r,
            ),
    {
        if any_contains(&self.allow, &client.source_ip) {
            return RateDecision::Permit;
        }
        ask(&mut self.inner, client.source_ip, hash, now)
    }
}

/// The first request under a key is permitted wherever a burst is granted at all. A
/// later one is permitted exactly if a whole token is there: what was left, and what the
/// rate added since, up to the burst. What is permitted costs one token, what is not costs
/// nothing, and the keys of the other parts are left alone.
pub proof fn law_what_asking_comes_to(
    before: TokenBucket<IpAddr>,
    after: TokenBucket<IpAddr>,
    key: IpAddr,
    hash: u64,
    now: u64,
    r: RateDecision,
)
    requires
        asked(before, after, key, hash, now, r),
        crate::lru::keys_distinct(before.shard(hash as int % 16)),
        before.shard(hash as int % 16).len() <= 4096,
    ensures
        ({
            let shard = before.shard(hash as int % 16);
            let left = crate::lru::lookup(after.shard(hash as int % 16), key);
            let full = before.burst() * 1_000_000_000;
            &&& (forall|i: int| 0 <= i < shard.len() ==> (#[trigger] shard[i]).0 != key) ==> {
                &&& before.burst() >= 1 ==> r is Permit && left == Some(
                    Bucket { tokens: (full - 1_000_000_000) as u64, last: now },
                )
                &&& before.burst() == 0 ==> r is Throttle
            }
            &&& forall|i: int|
                0 <= i < shard.len() && (#[trigger] shard[i]).0 == key && shard[i].1.last <= now
                    ==> {
                    let grown = shard[i].1.tokens + (now - shard[i].1.last) * before.rate();
                    let held = if grown <= full {
                        grown
                    } else {
                        full
                    };
                    &&& held >= 1_000_000_000 ==> r is Permit && left == Some(
                        Bucket { tokens: (held - 1_000_000_000) as u64, last: now },
                    )
                    &&& held < 1_000_000_000 ==> r is Throttle && left == Some(
                        Bucket { tokens: held as u64, last: now },
                    )
                }
            &&& forall|j: int|
                0 <= j < 16 && j != hash as int % 16 ==> #[trigger] after.shard(j)
                    == before.shard(j)
            &&& after.rate() == before.rate()
            &&& after.burst() == before.burst()
        }),
{
    let i = hash as int % 16;
    let held = level_of(before.shard(i), key, before.rate(), before.burst(), now);
    crate::lru::law_store_then_find(
        before.shard(i),
        4096,
        key,
        Bucket { tokens: spent(held) as u64, last: now },
    );
    crate::lru::lemma_position(before.shard(i), key);
}

} // verus!
