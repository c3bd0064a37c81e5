//! Shares of a rate, one for each key.

use vstd::prelude::*;

use crate::lru::{has_key, lookup, stored, CacheKey, LruMap};
use crate::seqs::Replicate;

verus! {

/// How many keys one part of the limiter remembers.
pub const CAP_PER_SHARD: usize = 4096;

/// How many parts the keys are spread over.
pub const SHARDS: usize = 16;

/// One whole token, in the unit in which tokens are counted.
pub const TOKEN: u64 = 1_000_000_000;

/// What one key has left, in billionths of a token, and when that was worked
/// out, in nanoseconds.
#[derive(Clone, Copy, PartialEq, Eq, Structural, Debug)]
pub struct Bucket {
    pub tokens: u64,
    pub last: u64,
}

impl View for Bucket {
    type V = Bucket;

    open spec fn view(&self) -> Bucket {
        *self
    }
}

pub open spec fn least(a: int, b: int) -> int {
    if a <= b {
        a
    } else {
        b
    }
}

/// The time from `last` to `now`; none where the clock went back.
pub open spec fn elapsed(last: int, now: int) -> int {
    if now >= last {
        now - last
    } else {
        0
    }
}

/// What a bucket holds at `now`: it fills by `rate` tokens a second and never
/// above `burst`.
pub open spec fn level(b: Bucket, rate: u32, burst: u32, now: u64) -> int {
    least(b.tokens + elapsed(b.last as int, now as int) * rate, burst * TOKEN)
}

/// What a key holds at `now`; one that is not remembered holds a full burst.
pub open spec fn level_of<K>(s: Seq<(K, Bucket)>, k: K, rate: u32, burst: u32, now: u64) -> int {
    match lookup(s, k) {
        Some(b) => level(b, rate, burst, now),
        None => burst * TOKEN,
    }
}

/// What is left of `held` once a token was asked for.
pub open spec fn spent(held: int) -> int {
    if held >= TOKEN {
        held - TOKEN
    } else {
        held
    }
}

/// A limiter: each key may use `rate` tokens a second, and `burst` at once.
pub struct TokenBucket<K: CacheKey + Replicate> {
    rate: u32,
    burst: u32,
    shards: Vec<LruMap<K, Bucket>>,
}

impl<K: CacheKey + Replicate> TokenBucket<K> {
    pub closed spec fn rate(&self) -> u32 {
        self.rate
    }

    pub closed spec fn burst(&self) -> u32 {
        self.burst
    }

    /// The keys of one part, from the one used longest ago to the latest.
    pub closed spec fn shard(&self, i: int) -> Seq<(K::V, Bucket)> {
        self.shards@[i]@
    }

    #[verifier::type_invariant]
    spec fn well_formed(self) -> bool {
        &&& 1 <= self.rate <= self.burst
        &&& self.shards@.len() == SHARDS
        &&& forall|i: int|
            0 <= i < self.shards@.len() ==> (#[trigger] self.shards@[i]).capacity()
                == CAP_PER_SHARD
    }

    /// A limiter for `per_second` tokens a second; none where that is 0, which
    /// stands for no limit. A burst below the rate is raised to it.
    pub fn new(per_second: u32, burst: u32) -> (r: Option<Self>)
        ensures
            r is None <==> per_second == 0,
            r matches Some(t) ==> {
                &&& t.rate() == per_second
                &&& t.burst() == if burst >= per_second {
                    burst
                } else {
                    per_second
                }
                &&& forall|i: int| 0 <= i < SHARDS ==> (#[trigger] t.shard(i)).len() == 0
            },
    {
        if per_second == 0 {
            return None;
        }
        let burst: u32 = if burst >= per_second {
            burst
        } else {
            per_second
        };
        let mut shards: Vec<LruMap<K, Bucket>> = Vec::new();
        let mut i: usize = 0;
        while i < SHARDS
            invariant
                i <= SHARDS,
                shards@.len() == i,
                forall|j: int|
                    0 <= j < i ==> (#[trigger] shards@[j]).capacity() == CAP_PER_SHARD
                        && shards@[j]@.len() == 0,
            decreases SHARDS - i,
        {
            shards.push(LruMap::new(CAP_PER_SHARD));
            i = i + 1;
        }
        let t = TokenBucket { rate: per_second, burst, shards };
        assert(forall|j: int| 0 <= j < SHARDS ==> (#[trigger] t.shard(j)) == shards@[j]@);
        Some(t)
    }

    /// How many keys one part remembers.
    pub fn remembered(&self, hash: u64) -> (r: usize)
        ensures
            r == self.shard(hash as int % SHARDS as int).len(),
            r <= CAP_PER_SHARD,
    {
        proof {
            use_type_invariant(self);
        }
        let i: usize = (hash % SHARDS as u64) as usize;
        self.shards[i].len()
    }

    /// Takes a token from the share of `key`, and says whether there was one.
    /// `hash` decides which part the key belongs to; it has to be the same for
    /// one key each time.
    pub fn check(&mut self, key: &K, hash: u64, now: u64) -> (r: bool)
        ensures
            ({
                let i = hash as int % SHARDS as int;
                let held = level_of(
                    old(self).shard(i),
                    key@,
                    old(self).rate(),
                    old(self).burst(),
                    now,
                );
                &&& r == (held >= TOKEN)
                &&& final(self).shard(i) == stored(
                    old(self).shard(i),
                    CAP_PER_SHARD as int,
                    key@,
                    Bucket { tokens: spent(held) as u64, last: now },
                )
                &&& forall|j: int|
                    0 <= j < SHARDS && j != i ==> #[trigger] final(self).shard(j) == old(
                        self,
                    ).shard(j)
                &&& final(self).rate() == old(self).rate()
                &&& final(self).burst() == old(self).burst()
            }),
    {
        proof {
            use_type_invariant(&*self);
        }
        let i: usize = (hash % SHARDS as u64) as usize;
        let rate: u32 = self.rate;
        let burst: u32 = self.burst;
        let full: u64 = burst as u64 * TOKEN;
        let held: u64 = match self.shards[i].peek(key) {
            Some(b) => fill(*b, rate, burst, now),
            None => full,
        };
        let permitted: bool = held >= TOKEN;
        let left: u64 = if permitted {
            held - TOKEN
        } else {
            held
        };
        let mut shard: LruMap<K, Bucket> = LruMap::new(CAP_PER_SHARD);
        self.swap_shard(i, &mut shard);
        shard.put(key.replicate(), Bucket { tokens: left, last: now });
        self.swap_shard(i, &mut shard);
        permitted
    }

    /// Exchanges one part with `shard`.
    fn swap_shard(&mut self, i: usize, shard: &mut LruMap<K, Bucket>)
        requires
            i < SHARDS,
            old(shard).capacity() == CAP_PER_SHARD,
        ensures
            final(shard).capacity() == CAP_PER_SHARD,
            final(shard)@ == old(self).shard(i as int),
            final(self).shard(i as int) == old(shard)@,
            forall|j: int|
                0 <= j < SHARDS && j != i ==> #[trigger] final(self).shard(j) == old(self).shard(j),
            final(self).rate() == old(self).rate(),
            final(self).burst() == old(self).burst(),
    {
        proof {
            use_type_invariant(&*self);
        }
        exchange(&mut self.shards, i, shard);
    }
}

fn exchange<T>(all: &mut Vec<T>, i: usize, one: &mut T)
    requires
        i < old(all)@.len(),
    ensures
        final(all)@ == old(all)@.update(i as int, *old(one)),
        *final(one) == old(all)@[i as int],
    no_unwind
{
    std::mem::swap(&mut all[i], one);
}

/// What the bucket holds at `now`.
fn fill(b: Bucket, rate: u32, burst: u32, now: u64) -> (r: u64)
    ensures
        r == level(b, rate, burst, now),
{
    let gone: u64 = if now >= b.last {
        now - b.last
    } else {
        0
    };
    assert(gone as int * rate as int <= 0xffff_ffff_ffff_ffffint * 0xffff_ffffint)
        by (nonlinear_arith)
        requires
            0 <= gone <= 0xffff_ffff_ffff_ffff,
            0 <= rate <= 0xffff_ffff,
    ;
    assert(gone as int * rate as int >= 0) by (nonlinear_arith)
        requires
            gone >= 0,
            rate >= 0,
    ;
    let sum: u128 = b.tokens as u128 + gone as u128 * rate as u128;
    let full: u64 = burst as u64 * TOKEN;
    if sum <= full as u128 {
        sum as u64
    } else {
        full
    }
}

/// How a bucket fares when asked at each of the given times in turn: what it
/// is then, and how often it gave a token.
pub open spec fn run(b: Bucket, rate: u32, burst: u32, times: Seq<u64>) -> (Bucket, nat)
    decreases times.len(),
{
    if times.len() == 0 {
        (b, 0)
    } else {
        let (c, n) = run(b, rate, burst, times.drop_last());
        let held = level(c, rate, burst, times.last());
        (
            Bucket { tokens: spent(held) as u64, last: times.last() },
            if held >= TOKEN {
                n + 1
            } else {
                n
            },
        )
    }
}

/// A bucket that holds no more than a burst never holds more.
pub proof fn law_a_bucket_never_exceeds_its_burst(b: Bucket, rate: u32, burst: u32, now: u64)
    requires
        b.tokens <= burst * TOKEN,
    ensures
        0 <= level(b, rate, burst, now) <= burst * TOKEN,
        0 <= spent(level(b, rate, burst, now)) <= burst * TOKEN,
{
    let e = elapsed(b.last as int, now as int);
    assert(e * rate >= 0) by (nonlinear_arith)
        requires
            e >= 0,
            rate >= 0,
    ;
}

/// However often a key asks, it gets no more than the burst and what the rate
/// grants in the time that passes from the first of the times to the last.
pub proof fn law_permits_follow_burst_and_rate(b: Bucket, rate: u32, burst: u32, times: Seq<u64>)
    requires
        b.tokens <= burst * TOKEN,
        forall|i: int| 0 <= i < times.len() ==> b.last <= #[trigger] times[i],
        forall|i: int, j: int| 0 <= i <= j < times.len() ==> times[i] <= times[j],
    ensures
        ({
            let (c, n) = run(b, rate, burst, times);
            let end = if times.len() == 0 {
                b.last
            } else {
                times.last()
            };
            &&& c.last == end
            &&& c.tokens <= burst * TOKEN
            &&& n * TOKEN + c.tokens <= b.tokens + (end - b.last) * rate
        }),
    decreases times.len(),
{
    if times.len() > 0 {
        let m = times.drop_last();
        law_permits_follow_burst_and_rate(b, rate, burst, m);
        let (c, n) = run(b, rate, burst, m);
        let t = times.last();
        let held = level(c, rate, burst, t);
        law_a_bucket_never_exceeds_its_burst(c, rate, burst, t);
        assert(held <= c.tokens + (t - c.last) * rate);
        let a = (c.last - b.last) as int;
        let d = (t - c.last) as int;
        assert(a * rate + d * rate == (a + d) * rate) by (nonlinear_arith);
    } else {
        assert((b.last - b.last) * rate == 0) by (nonlinear_arith);
    }
}

/// The share of a key is its own: asking for one leaves what another holds, as
/// long as that one is remembered.
pub proof fn law_keys_have_shares_of_their_own<K>(
    s: Seq<(K, Bucket)>,
    k: K,
    b: Bucket,
    other: K,
    rate: u32,
    burst: u32,
    now: u64,
)
    requires
        crate::lru::keys_distinct(s),
        s.len() <= CAP_PER_SHARD,
        other != k,
        has_key(s, k) || s.len() < CAP_PER_SHARD || other != s[0].0,
    ensures
        level_of(stored(s, CAP_PER_SHARD as int, k, b), other, rate, burst, now) == level_of(
            s,
            other,
            rate,
            burst,
            now,
        ),
{
    crate::lru::law_store_then_find(s, CAP_PER_SHARD as int, k, b);
    assert(lookup(stored(s, CAP_PER_SHARD as int, k, b), other) == lookup(s, other));
}

/// A bucket that holds a full burst.
pub open spec fn full_bucket(burst: u32, now: u64) -> Bucket {
    Bucket { tokens: (burst * TOKEN) as u64, last: now }
}

/// The first requests of a key that was not seen before are permitted, as many of them
/// as the burst allows.
pub proof fn law_a_new_key_gets_its_burst(rate: u32, burst: u32, start: u64, times: Seq<u64>)
    ensures
        ({
            let (c, n) = run(full_bucket(burst, start), rate, burst, times);
            &&& n <= times.len()
            &&& times.len() <= burst ==> n == times.len() && c.tokens >= (burst - n) * TOKEN
            &&& times.len() > burst ==> n >= burst
            &&& c.tokens <= burst * TOKEN
        }),
    decreases times.len(),
{
    if times.len() > 0 {
        let m = times.drop_last();
        law_a_new_key_gets_its_burst(rate, burst, start, m);
        let (c, n) = run(full_bucket(burst, start), rate, burst, m);
        let t = times.last();
        law_a_bucket_never_exceeds_its_burst(c, rate, burst, t);
        let e = elapsed(c.last as int, t as int);
        assert(e * rate >= 0) by (nonlinear_arith)
            requires
                e >= 0,
                rate >= 0,
        ;
    }
}

/// One part of the limiter once each of the keys asked at its time, in turn.
pub open spec fn served<K>(
    s: Seq<(K, Bucket)>,
    rate: u32,
    burst: u32,
    asks: Seq<(K, u64)>,
) -> Seq<(K, Bucket)>
    decreases asks.len(),
{
    if asks.len() == 0 {
        s
    } else {
        let t = served(s, rate, burst, asks.drop_last());
        let (k, now) = asks.last();
        let held = level_of(t, k, rate, burst, now);
        stored(t, CAP_PER_SHARD as int, k, Bucket { tokens: spent(held) as u64, last: now })
    }
}

/// How often a key was permitted something.
pub open spec fn permits_of<K>(
    s: Seq<(K, Bucket)>,
    rate: u32,
    burst: u32,
    asks: Seq<(K, u64)>,
    key: K,
) -> nat
    decreases asks.len(),
{
    if asks.len() == 0 {
        0
    } else {
        let n = permits_of(s, rate, burst, asks.drop_last(), key);
        let t = served(s, rate, burst, asks.drop_last());
        let (k, now) = asks.last();
        if k == key && level_of(t, k, rate, burst, now) >= TOKEN {
            n + 1
        } else {
            n
        }
    }
}

/// When a key asked.
pub open spec fn times_of<K>(asks: Seq<(K, u64)>, key: K) -> Seq<u64>
    decreases asks.len(),
{
    if asks.len() == 0 {
        Seq::empty()
    } else if asks.last().0 == key {
        times_of(asks.drop_last(), key).push(asks.last().1)
    } else {
        times_of(asks.drop_last(), key)
    }
}

/// From its first request on, the key is not forgotten.
pub open spec fn remembered_throughout<K>(
    s: Seq<(K, Bucket)>,
    rate: u32,
    burst: u32,
    asks: Seq<(K, u64)>,
    key: K,
) -> bool {
    forall|n: int|
        0 <= n <= asks.len() && times_of(asks.take(n), key).len() > 0 ==> has_key(
            #[trigger] served(s, rate, burst, asks.take(n)),
            key,
        )
}

/// A key fares as its bucket does alone, whatever other keys ask for in between.
proof fn lemma_a_key_fares_alone<K>(
    s: Seq<(K, Bucket)>,
    rate: u32,
    burst: u32,
    asks: Seq<(K, u64)>,
    key: K,
)
    requires
        crate::lru::keys_distinct(s),
        s.len() <= CAP_PER_SHARD,
        !has_key(s, key),
        remembered_throughout(s, rate, burst, asks, key),
    ensures
        ({
            let times = times_of(asks, key);
            let t = served(s, rate, burst, asks);
            let n = permits_of(s, rate, burst, asks, key);
            &&& crate::lru::keys_distinct(t)
            &&& t.len() <= CAP_PER_SHARD
            &&& times.len() == 0 ==> lookup(t, key) is None && n == 0
            &&& times.len() > 0 ==> {
                let u = run(full_bucket(burst, times[0]), rate, burst, times);
                lookup(t, key) == Some(u.0) && n == u.1
            }
        }),
    decreases asks.len(),
{
    if asks.len() > 0 {
        let before = asks.drop_last();
        assert forall|n: int|
            0 <= n <= before.len() && times_of(before.take(n), key).len() > 0 implies has_key(
            #[trigger] served(s, rate, burst, before.take(n)),
            key,
        ) by {
            assert(before.take(n) =~= asks.take(n));
        }
        lemma_a_key_fares_alone(s, rate, burst, before, key);
        let t = served(s, rate, burst, before);
        let (k, now) = asks.last();
        let held = level_of(t, k, rate, burst, now);
        let b = Bucket { tokens: spent(held) as u64, last: now };
        let after = served(s, rate, burst, asks);
        crate::lru::law_store_then_find(t, CAP_PER_SHARD as int, k, b);
        let times = times_of(asks, key);
        let earlier = times_of(before, key);
        assert(asks.take(asks.len() as int) =~= asks);
        if k == key {
            assert(times.drop_last() =~= earlier);
            let f = full_bucket(burst, times[0]);
            let u = run(f, rate, burst, times);
            if earlier.len() == 0 {
                assert(level(f, rate, burst, now) == burst * TOKEN) by {
                    assert(elapsed(now as int, now as int) * rate == 0);
                }
                assert(run(f, rate, burst, earlier) == (f, 0nat));
                assert(u.0 == b);
            } else {
                assert(times[0] == earlier[0]);
                assert(u.0 == b);
            }
            assert(permits_of(s, rate, burst, asks, key) == u.1);
            assert(lookup(after, key) == Some(u.0));
        } else {
            assert(times == earlier);
            crate::lru::lemma_position(t, key);
            if has_key(t, k) || t.len() < CAP_PER_SHARD || key != t[0].0 {
                assert(lookup(after, key) == lookup(t, key));
            } else {
                crate::lru::lemma_position(t, k);
                crate::lru::lemma_position(after, key);
                assert(t[0].0 == key);
                assert(has_key(t, key));
                assert(times.len() > 0);
                assert(has_key(after, key));
                let q = crate::lru::position(after, key);
                let all = t.push((k, b));
                assert(after == all.skip(1));
                assert(after[q] == all[q + 1]);
                if q + 1 < t.len() {
                    assert(t[0].0 != t[q + 1].0);
                }
                assert(false);
            }
        }
    }
}

/// A key that was not seen before, and that is not forgotten meanwhile, is permitted its
/// first requests up to the burst, and in all no more than the burst and what the rate
/// grants in the time from the first request to the last. What other keys ask for in
/// between makes no difference.
pub proof fn law_a_key_gets_its_burst_and_rate<K>(
    s: Seq<(K, Bucket)>,
    rate: u32,
    burst: u32,
    asks: Seq<(K, u64)>,
    key: K,
)
    requires
        crate::lru::keys_distinct(s),
        s.len() <= CAP_PER_SHARD,
        !has_key(s, key),
        remembered_throughout(s, rate, burst, asks, key),
        forall|i: int, j: int|
            0 <= i <= j < times_of(asks, key).len() ==> times_of(asks, key)[i] <= times_of(
                asks,
                key,
            )[j],
    ensures
        ({
            let times = times_of(asks, key);
            let n = permits_of(s, rate, burst, asks, key);
            &&& times.len() <= burst ==> n == times.len()
            &&& times.len() > burst ==> n >= burst
            &&& times.len() > 0 ==> n * TOKEN <= burst * TOKEN + (times.last() - times[0]) * rate
            &&& times.len() > 0 ==> n == run(full_bucket(burst, times[0]), rate, burst, times).1
        }),
{
    let times = times_of(asks, key);
    lemma_a_key_fares_alone(s, rate, burst, asks, key);
    if times.len() > 0 {
        law_a_new_key_gets_its_burst(rate, burst, times[0], times);
        law_permits_follow_burst_and_rate(full_bucket(burst, times[0]), rate, burst, times);
    }
}

/// A bucket fills by as many billionths of a token each nanosecond as it gets tokens a
/// second, until it is full. A clock that went back adds nothing. One second is enough
/// for a request, and a request takes one token, if there is one.
pub proof fn law_how_a_bucket_fills(b: Bucket, rate: u32, burst: u32, now: u64)
    ensures
        ({
            let held = level(b, rate, burst, now);
            let full = burst * 1_000_000_000;
            let grown = b.tokens + (now - b.last) * rate;
            &&& held <= full
            &&& b.last <= now && grown <= full ==> held == grown
            &&& b.last <= now && grown > full ==> held == full
            &&& now < b.last && b.tokens <= full ==> held == b.tokens
            &&& b.last + 1_000_000_000 <= now && 1 <= rate && 1 <= burst ==> held >= 1_000_000_000
            &&& held >= 1_000_000_000 ==> spent(held) == held - 1_000_000_000
            &&& held < 1_000_000_000 ==> spent(held) == held
        }),
{
    let e = elapsed(b.last as int, now as int);
    assert(e * rate >= 0) by (nonlinear_arith)
        requires
            e >= 0,
            rate >= 0,
    ;
    if b.last + 1_000_000_000 <= now && 1 <= rate {
        assert(e * rate >= 1_000_000_000) by (nonlinear_arith)
            requires
                e >= 1_000_000_000,
                rate >= 1,
        ;
    }
}

/// A key that is not remembered holds a full burst; one that is remembered holds what
/// its own bucket holds.
pub proof fn law_what_a_key_holds<K>(
    s: Seq<(K, Bucket)>,
    k: K,
    rate: u32,
    burst: u32,
    now: u64,
)
    ensures
        (forall|i: int| 0 <= i < s.len() ==> (#[trigger] s[i]).0 != k) ==> level_of(
            s,
            k,
            rate,
            burst,
            now,
        ) == burst * 1_000_000_000,
        crate::lru::keys_distinct(s) ==> forall|i: int|
            0 <= i < s.len() && (#[trigger] s[i]).0 == k ==> level_of(s, k, rate, burst, now)
                == level(s[i].1, rate, burst, now),
{
    crate::lru::lemma_position(s, k);
}

} // verus!
