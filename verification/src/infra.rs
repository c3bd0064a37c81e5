//! How well servers have answered, and in which order to ask them.

use vstd::prelude::*;

use crate::addr::{IpAddr, SocketAddr};
use crate::lru::{lookup, CacheKey, LruMap};
use crate::name::{fold_case, Name};

verus! {

/// The round trip that is credited to a server that was never timed.
pub const DEFAULT_RTT_MS: u32 = 50;

/// How long a failure counts: 30 seconds.
pub const INFRA_FAIL_COOLDOWN_NANOS: u64 = 30_000_000_000;

/// What a recent failure to answer adds to a server's score.
pub const INFRA_FAIL_PENALTY_MS: u64 = 100_000;

/// What a recent useless answer adds to a server's score.
pub const INFRA_PROTOCOL_PENALTY_MS: u64 = 10_000;

/// A server as it serves one zone: the same address can do well for one zone
/// and badly for another.
#[derive(PartialEq, Eq, Debug)]
pub struct InfraKey {
    pub ip: IpAddr,
    pub zone: Name,
}

impl View for InfraKey {
    type V = (IpAddr, Seq<Seq<u8>>);

    open spec fn view(&self) -> (IpAddr, Seq<Seq<u8>>) {
        (self.ip, self.zone@)
    }
}

impl InfraKey {
    pub fn new(ip: IpAddr, zone: &Name) -> (r: Self)
        ensures
            r@ == (ip, fold_case(zone@)),
    {
        InfraKey { ip, zone: zone.canonical_key() }
    }
}

impl CacheKey for InfraKey {
    fn same_key(&self, other: &Self) -> (r: bool) {
        self.ip == other.ip && self.zone.eq_exact(&other.zone)
    }
}

/// What is known of a server. Times are nanoseconds of a clock that never
/// goes back.
#[derive(Clone, Copy, PartialEq, Eq, Structural, Debug)]
pub struct InfraStat {
    pub srtt_ms: Option<u32>,
    pub last_fail: Option<u64>,
    pub last_protocol_error: Option<u64>,
}

impl View for InfraStat {
    type V = InfraStat;

    open spec fn view(&self) -> InfraStat {
        *self
    }
}

pub open spec fn unknown_stat() -> InfraStat {
    InfraStat { srtt_ms: None, last_fail: None, last_protocol_error: None }
}

impl Default for InfraStat {
    fn default() -> (r: Self)
        ensures
            r == unknown_stat(),
    {
        InfraStat { srtt_ms: None, last_fail: None, last_protocol_error: None }
    }
}

/// What is known of the server, or that nothing is.
pub open spec fn stat_of(
    s: Seq<((IpAddr, Seq<Seq<u8>>), InfraStat)>,
    ip: IpAddr,
    zone: Seq<Seq<u8>>,
) -> InfraStat {
    match lookup(s, (ip, fold_case(zone))) {
        Some(st) => st,
        None => unknown_stat(),
    }
}

/// The event happened less than 30 seconds ago.
pub open spec fn recent(at: Option<u64>, now: u64) -> bool {
    match at {
        Some(t) => t >= now || now - t < INFRA_FAIL_COOLDOWN_NANOS,
        None => false,
    }
}

fn is_recent(at: Option<u64>, now: u64) -> (r: bool)
    ensures
        r == recent(at, now),
{
    match at {
        Some(t) => now.saturating_sub(t) < INFRA_FAIL_COOLDOWN_NANOS,
        None => false,
    }
}

/// The server failed to answer a short while ago.
pub open spec fn cooling(st: InfraStat, now: u64) -> bool {
    recent(st.last_fail, now)
}

/// Lower is better: the round trip, and a penalty for each recent trouble.
pub open spec fn score_of(st: InfraStat, now: u64) -> int {
    (match st.srtt_ms {
        Some(ms) => ms,
        None => DEFAULT_RTT_MS,
    }) + (if recent(st.last_fail, now) {
        INFRA_FAIL_PENALTY_MS as int
    } else {
        0
    }) + (if recent(st.last_protocol_error, now) {
        INFRA_PROTOCOL_PENALTY_MS as int
    } else {
        0
    })
}

/// A success: the new round trip counts for one eighth, and past trouble is
/// forgotten.
pub open spec fn stat_after_success(st: InfraStat, ms: u32) -> InfraStat {
    InfraStat {
        srtt_ms: Some(
            match st.srtt_ms {
                Some(old) => ((old * 7 + ms) / 8) as u32,
                None => ms,
            },
        ),
        last_fail: None,
        last_protocol_error: None,
    }
}

pub open spec fn millis_of(nanos: u64) -> u32 {
    if nanos / 1_000_000 > u32::MAX {
        u32::MAX
    } else {
        (nanos / 1_000_000) as u32
    }
}

pub type InfraMap = LruMap<InfraKey, InfraStat>;

pub(crate) fn stat_for(infra: &InfraMap, ip: IpAddr, zone: &Name) -> (r: InfraStat)
    ensures
        r == stat_of(infra@, ip, zone@),
{
    let key = InfraKey::new(ip, zone);
    match infra.peek(&key) {
        Some(st) => *st,
        None => InfraStat::default(),
    }
}

/// Whether the server failed to answer within the last 30 seconds.
pub fn infra_is_cooling(infra: &InfraMap, ip: IpAddr, zone: &Name, now: u64) -> (r: bool)
    ensures
        r == cooling(stat_of(infra@, ip, zone@), now),
{
    is_recent(stat_for(infra, ip, zone).last_fail, now)
}

/// The server's score; lower goes first.
pub fn infra_score(infra: &InfraMap, ip: IpAddr, zone: &Name, now: u64) -> (r: u64)
    ensures
        r == score_of(stat_of(infra@, ip, zone@), now),
{
    let st = stat_for(infra, ip, zone);
    let base: u64 = match st.srtt_ms {
        Some(ms) => ms as u64,
        None => DEFAULT_RTT_MS as u64,
    };
    let transport: u64 = if is_recent(st.last_fail, now) {
        INFRA_FAIL_PENALTY_MS
    } else {
        0
    };
    let protocol: u64 = if is_recent(st.last_protocol_error, now) {
        INFRA_PROTOCOL_PENALTY_MS
    } else {
        0
    };
    base + transport + protocol
}

/// Records an answer that came after `rtt_nanos`.
pub fn note_success(infra: &mut InfraMap, ip: IpAddr, zone: &Name, rtt_nanos: u64)
    ensures
        final(infra)@ == crate::lru::stored(
            old(infra)@,
            old(infra).capacity(),
            (ip, fold_case(zone@)),
            stat_after_success(stat_of(old(infra)@, ip, zone@), millis_of(rtt_nanos)),
        ),
        final(infra).capacity() == old(infra).capacity(),
{
    let st = stat_for(infra, ip, zone);
    let millis: u64 = rtt_nanos / 1_000_000;
    let ms: u32 = if millis > u32::MAX as u64 {
        u32::MAX
    } else {
        millis as u32
    };
    let srtt: u32 = match st.srtt_ms {
        Some(old) => ((old as u64 * 7 + ms as u64) / 8) as u32,
        None => ms,
    };
    infra.put(
        InfraKey::new(ip, zone),
        InfraStat { srtt_ms: Some(srtt), last_fail: None, last_protocol_error: None },
    );
}

/// Records that an answer came which is of no use.
pub fn note_protocol_error(infra: &mut InfraMap, ip: IpAddr, zone: &Name, now: u64)
    ensures
        final(infra)@ == crate::lru::stored(
            old(infra)@,
            old(infra).capacity(),
            (ip, fold_case(zone@)),
            (InfraStat {
                last_protocol_error: Some(now),
                ..stat_of(old(infra)@, ip, zone@)
            }),
        ),
        final(infra).capacity() == old(infra).capacity(),
{
    let st = stat_for(infra, ip, zone);
    infra.put(
        InfraKey::new(ip, zone),
        InfraStat {
            srtt_ms: st.srtt_ms,
            last_fail: st.last_fail,
            last_protocol_error: Some(now),
        },
    );
}

/// Records that no answer came.
pub fn note_failure(infra: &mut InfraMap, ip: IpAddr, zone: &Name, now: u64)
    ensures
        final(infra)@ == crate::lru::stored(
            old(infra)@,
            old(infra).capacity(),
            (ip, fold_case(zone@)),
            (InfraStat { last_fail: Some(now), ..stat_of(old(infra)@, ip, zone@) }),
        ),
        final(infra).capacity() == old(infra).capacity(),
{
    let st = stat_for(infra, ip, zone);
    infra.put(
        InfraKey::new(ip, zone),
        InfraStat {
            srtt_ms: st.srtt_ms,
            last_fail: Some(now),
            last_protocol_error: st.last_protocol_error,
        },
    );
}

/// `sorted` with `x` behind all that do not have a greater key.
pub open spec fn insert_stable(
    sorted: Seq<SocketAddr>,
    x: SocketAddr,
    key: spec_fn(SocketAddr) -> int,
) -> Seq<SocketAddr>
    decreases sorted.len(),
{
    if sorted.len() == 0 || key(sorted.last()) <= key(x) {
        sorted.push(x)
    } else {
        insert_stable(sorted.drop_last(), x, key).push(sorted.last())
    }
}

/// The servers by ascending key; those with equal keys stay in order.
pub open spec fn stable_sorted(s: Seq<SocketAddr>, key: spec_fn(SocketAddr) -> int) -> Seq<
    SocketAddr,
>
    decreases s.len(),
{
    if s.len() == 0 {
        s
    } else {
        insert_stable(stable_sorted(s.drop_last(), key), s.last(), key)
    }
}

pub open spec fn ascending(s: Seq<SocketAddr>, key: spec_fn(SocketAddr) -> int) -> bool {
    forall|i: int, j: int| 0 <= i < j < s.len() ==> key(#[trigger] s[i]) <= key(#[trigger] s[j])
}

proof fn lemma_insert_stable(s: Seq<SocketAddr>, x: SocketAddr, key: spec_fn(SocketAddr) -> int)
    requires
        ascending(s, key),
    ensures
        ascending(insert_stable(s, x, key), key),
        insert_stable(s, x, key).to_multiset() == s.to_multiset().insert(x),
        insert_stable(s, x, key).len() == s.len() + 1,
        forall|y: SocketAddr| #[trigger] insert_stable(s, x, key).contains(y) ==> y == x || s.contains(y),
    decreases s.len(),
{
    broadcast use vstd::seq_lib::group_to_multiset_ensures;

    let out = insert_stable(s, x, key);
    if s.len() == 0 || key(s.last()) <= key(x) {
        assert forall|y: SocketAddr| #[trigger] out.contains(y) implies y == x || s.contains(y) by {
            let k = choose|k: int| 0 <= k < out.len() && out[k] == y;
            if k < s.len() {
                assert(s[k] == y);
            }
        }
        assert forall|i: int, j: int| 0 <= i < j < out.len() implies key(#[trigger] out[i]) <= key(
            #[trigger] out[j],
        ) by {
            assert(out[i] == s[i]);
            if j < s.len() {
                assert(out[j] == s[j]);
            } else if i < s.len() - 1 {
                assert(key(s[i]) <= key(s[s.len() - 1]));
            }
        }
    } else {
        let m = s.drop_last();
        assert forall|i: int, j: int| 0 <= i < j < m.len() implies key(#[trigger] m[i]) <= key(
            #[trigger] m[j],
        ) by {
            assert(m[i] == s[i] && m[j] == s[j]);
        }
        lemma_insert_stable(m, x, key);
        let inner = insert_stable(m, x, key);
        assert(s =~= m.push(s.last()));
        assert(out.to_multiset() == inner.to_multiset().insert(s.last()));
        assert(s.to_multiset() == m.to_multiset().insert(s.last()));
        assert(out.to_multiset() =~= s.to_multiset().insert(x));
        assert forall|i: int| 0 <= i < inner.len() implies key(#[trigger] inner[i]) <= key(
            s.last(),
        ) by {
            assert(inner.contains(inner[i]));
            if inner[i] != x {
                let k = choose|k: int| 0 <= k < m.len() && m[k] == inner[i];
                assert(s[k] == inner[i]);
                assert(key(s[k]) <= key(s[s.len() - 1]));
            }
        }
        assert forall|i: int, j: int| 0 <= i < j < out.len() implies key(#[trigger] out[i]) <= key(
            #[trigger] out[j],
        ) by {
            assert(out[i] == inner[i]);
            if j < inner.len() {
                assert(out[j] == inner[j]);
            }
        }
        assert forall|y: SocketAddr| #[trigger] out.contains(y) implies y == x || s.contains(y) by {
            let k = choose|k: int| 0 <= k < out.len() && out[k] == y;
            if k < inner.len() {
                assert(inner[k] == y);
                assert(inner.contains(y));
                if y != x {
                    let n = choose|n: int| 0 <= n < m.len() && m[n] == y;
                    assert(s[n] == y);
                }
            } else {
                assert(s[s.len() - 1] == y);
            }
        }
    }
}

/// Sorting keeps every server and puts none before one with a lower key.
pub proof fn law_order_is_a_sorted_rearrangement(
    s: Seq<SocketAddr>,
    key: spec_fn(SocketAddr) -> int,
)
    ensures
        ascending(stable_sorted(s, key), key),
        stable_sorted(s, key).to_multiset() == s.to_multiset(),
        stable_sorted(s, key).len() == s.len(),
    decreases s.len(),
{
    broadcast use vstd::seq_lib::group_to_multiset_ensures;

    if s.len() > 0 {
        law_order_is_a_sorted_rearrangement(s.drop_last(), key);
        lemma_insert_stable(stable_sorted(s.drop_last(), key), s.last(), key);
        assert(s =~= s.drop_last().push(s.last()));
    }
}

/// The server with the least key; the first one where several have it.
pub open spec fn least_by(s: Seq<SocketAddr>, key: spec_fn(SocketAddr) -> int) -> SocketAddr
    recommends
        s.len() > 0,
    decreases s.len(),
{
    if s.len() <= 1 {
        s[0]
    } else {
        let best = least_by(s.drop_last(), key);
        if key(s.last()) < key(best) {
            s.last()
        } else {
            best
        }
    }
}

fn insert_stable_into(
    items: &mut Vec<SocketAddr>,
    keys: &mut Vec<u128>,
    x: SocketAddr,
    k: u128,
    Ghost(key): Ghost<spec_fn(SocketAddr) -> int>,
)
    requires
        old(items).len() == old(keys).len(),
        forall|i: int| 0 <= i < old(items).len() ==> #[trigger] old(keys)@[i] == key(old(items)@[i]),
        k == key(x),
    ensures
        final(items)@ == insert_stable(old(items)@, x, key),
        final(items).len() == final(keys).len(),
        forall|i: int|
            0 <= i < final(items).len() ==> #[trigger] final(keys)@[i] == key(final(items)@[i]),
{
    let ghost whole = items@;
    let mut at: usize = items.len();
    assert(whole.take(at as int) =~= whole);
    assert(insert_stable(whole, x, key) =~= insert_stable(whole.take(at as int), x, key)
        + whole.skip(at as int));
    while at > 0 && keys[at - 1] > k
        invariant
            at <= items.len(),
            items@ == whole,
            items.len() == keys.len(),
            k == key(x),
            forall|i: int| 0 <= i < items.len() ==> #[trigger] keys@[i] == key(items@[i]),
            insert_stable(whole, x, key) == insert_stable(whole.take(at as int), x, key)
                + whole.skip(at as int),
        decreases at,
    {
        proof {
            let head = whole.take(at as int);
            assert(head.drop_last() =~= whole.take(at - 1));
            assert(head.last() == whole[at - 1]);
            assert(keys@[at - 1] == key(whole[at - 1]));
            assert(insert_stable(head, x, key) == insert_stable(head.drop_last(), x, key).push(
                head.last(),
            ));
            assert(insert_stable(head.drop_last(), x, key).push(head.last()) + whole.skip(at as int)
                =~= insert_stable(head.drop_last(), x, key) + whole.skip(at - 1));
        }
        at = at - 1;
    }
    let ghost head = whole.take(at as int);
    let ghost old_keys = keys@;
    items.insert(at, x);
    keys.insert(at, k);
    proof {
        if at > 0 {
            assert(head.last() == whole[at - 1]);
            assert(old_keys[at - 1] == key(whole[at - 1]));
        }
        assert(insert_stable(head, x, key) == head.push(x));
        assert(items@ =~= head.push(x) + whole.skip(at as int));
        assert forall|i: int| 0 <= i < items.len() implies #[trigger] keys@[i] == key(items@[i]) by {
            if i < at {
                assert(old_keys[i] == key(whole[i]));
            } else if i > at {
                assert(keys@[i] == old_keys[i - 1]);
                assert(old_keys[i - 1] == key(whole[i - 1]));
            }
        }
    }
}

/// The items by ascending key; those with equal keys stay in order.
pub(crate) fn sort_stable(
    items: &Vec<SocketAddr>,
    keys: &Vec<u128>,
    Ghost(key): Ghost<spec_fn(SocketAddr) -> int>,
) -> (r: Vec<SocketAddr>)
    requires
        items.len() == keys.len(),
        forall|i: int| 0 <= i < items.len() ==> #[trigger] keys@[i] == key(items@[i]),
    ensures
        r@ == stable_sorted(items@, key),
{
    let mut out: Vec<SocketAddr> = Vec::new();
    let mut out_keys: Vec<u128> = Vec::new();
    let mut i: usize = 0;
    assert(items@.take(0) =~= Seq::<SocketAddr>::empty());
    while i < items.len()
        invariant
            i <= items.len(),
            items.len() == keys.len(),
            forall|i: int| 0 <= i < items.len() ==> #[trigger] keys@[i] == key(items@[i]),
            out.len() == out_keys.len(),
            forall|i: int| 0 <= i < out.len() ==> #[trigger] out_keys@[i] == key(out@[i]),
            out@ == stable_sorted(items@.take(i as int), key),
        decreases items.len() - i,
    {
        assert(keys@[i as int] == key(items@[i as int]));
        insert_stable_into(&mut out, &mut out_keys, items[i], keys[i], Ghost(key));
        proof {
            let next = items@.take(i + 1);
            assert(next.drop_last() =~= items@.take(i as int));
            assert(next.last() == items@[i as int]);
        }
        i = i + 1;
    }
    assert(items@.take(items@.len() as int) =~= items@);
    out
}

/// How a server is scored: by its mean time in milliseconds, 50 where none is known, and
/// 100000 more within half a minute of silence, 10000 more within half a minute of a reply
/// that was of no use.
pub proof fn law_how_a_server_is_scored(st: InfraStat, now: u64)
    ensures
        ({
            let time = match st.srtt_ms {
                Some(ms) => ms as int,
                None => 50,
            };
            let silent = st.last_fail is Some && st.last_fail->0 + 30_000_000_000 > now;
            let useless = st.last_protocol_error is Some && st.last_protocol_error->0
                + 30_000_000_000 > now;
            &&& cooling(st, now) <==> silent
            &&& !silent && !useless ==> score_of(st, now) == time
            &&& silent && !useless ==> score_of(st, now) == time + 100_000
            &&& !silent && useless ==> score_of(st, now) == time + 10_000
            &&& silent && useless ==> score_of(st, now) == time + 110_000
        }),
{
}

/// A reply in time moves the mean an eighth of the way to the time it took, and clears
/// what was held against the server; the first one sets it.
pub proof fn law_a_reply_moves_the_mean(st: InfraStat, ms: u32)
    ensures
        ({
            let t = stat_after_success(st, ms);
            &&& t.last_fail is None && t.last_protocol_error is None
            &&& st.srtt_ms is None ==> t.srtt_ms == Some(ms)
            &&& st.srtt_ms matches Some(old) ==> (t.srtt_ms matches Some(new) && 8 * new <= 7 * old
                + ms < 8 * new + 8)
        }),
{
}

/// What is noted of a server in a zone is found again under both, in any letter case, and
/// nothing else: a server that nothing was noted of is unknown.
pub proof fn law_what_is_noted_is_found(
    s: Seq<((IpAddr, Seq<Seq<u8>>), InfraStat)>,
    cap: int,
    ip: IpAddr,
    zone: Seq<Seq<u8>>,
    same: Seq<Seq<u8>>,
    st: InfraStat,
)
    requires
        crate::lru::keys_distinct(s),
        s.len() <= cap,
        cap >= 1,
        crate::name::same_name(zone, same),
    ensures
        stat_of(crate::lru::stored(s, cap, (ip, fold_case(zone)), st), ip, same) == st,
        lookup(s, (ip, fold_case(zone))) is None ==> stat_of(s, ip, same) == (InfraStat {
            srtt_ms: None,
            last_fail: None,
            last_protocol_error: None,
        }),
{
    crate::lru::law_store_then_find(s, cap, (ip, fold_case(zone)), st);
}

/// Times are counted in whole milliseconds, up to what the number can hold.
pub proof fn law_whole_milliseconds(nanos: u64)
    ensures
        millis_of(nanos) < u32::MAX ==> millis_of(nanos) * 1_000_000 <= nanos < (millis_of(nanos)
            + 1) * 1_000_000,
        millis_of(nanos) == u32::MAX ==> nanos >= u32::MAX * 1_000_000,
{
}

/// The element with the smallest key is one of them, and no other has a smaller one.
pub proof fn law_the_least_is_chosen(s: Seq<SocketAddr>, key: spec_fn(SocketAddr) -> int)
    requires
        s.len() > 0,
    ensures
        s.contains(least_by(s, key)),
        forall|i: int| 0 <= i < s.len() ==> key(least_by(s, key)) <= key(#[trigger] s[i]),
    decreases s.len(),
{
    if s.len() > 1 {
        let m = s.drop_last();
        law_the_least_is_chosen(m, key);
        let best = least_by(m, key);
        let k = choose|k: int| 0 <= k < m.len() && m[k] == best;
        assert(s[k] == best);
        assert(s.last() == s[s.len() - 1]);
        assert forall|i: int| 0 <= i < s.len() implies key(least_by(s, key)) <= key(
            #[trigger] s[i],
        ) by {
            if i < m.len() {
                assert(m[i] == s[i]);
            }
        }
    } else {
        assert(s[0] == least_by(s, key));
    }
}

} // verus!
