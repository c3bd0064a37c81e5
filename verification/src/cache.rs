//! What the resolver remembers: entries with an end of life, and how they are
//! fetched from a bounded map.

use vstd::prelude::*;

use crate::addr::{IpAddr, SocketAddr};
use crate::chain::ZoneKeys;
use crate::chain::ZoneKeysView;
use crate::lru::{has_key, lemma_without, lookup, stored, touched, without, CacheKey, LruMap};
use crate::message::{Dnskey, DnskeyView};
use crate::name::{fold_case, last_labels, Name};
use crate::seqs::{replicate_all, views, Replicate};

verus! {

/// When an entry ends, in milliseconds of a clock that never goes back.
#[derive(Clone, Copy, PartialEq, Eq, Structural, Debug)]
pub struct TtlLifetime {
    pub expires_at_millis: u64,
}

/// The end of a lifetime of `ttl` seconds that starts now.
pub open spec fn lifetime_of(ttl: u32, now_millis: u64) -> TtlLifetime {
    TtlLifetime {
        expires_at_millis: if now_millis + ttl * 1000 > u64::MAX {
            u64::MAX
        } else {
            (now_millis + ttl * 1000) as u64
        },
    }
}

impl TtlLifetime {
    pub open spec fn live_at(self, now_millis: u64) -> bool {
        self.expires_at_millis > now_millis
    }

    /// Whole seconds that remain, rounded up.
    pub open spec fn seconds_at(self, now_millis: u64) -> int {
        let s = (self.expires_at_millis - now_millis + 999) / 1000;
        if s > u32::MAX {
            u32::MAX as int
        } else {
            s
        }
    }

    pub fn new(ttl_secs: u32, now_millis: u64) -> (r: Self)
        ensures
            r == lifetime_of(ttl_secs, now_millis),
    {
        TtlLifetime { expires_at_millis: now_millis.saturating_add(ttl_secs as u64 * 1000) }
    }

    /// The milliseconds that remain, while any do.
    pub fn remaining(self, now_millis: u64) -> (r: Option<u64>)
        ensures
            r is Some <==> self.live_at(now_millis),
            r matches Some(m) ==> m == self.expires_at_millis - now_millis,
    {
        if self.expires_at_millis > now_millis {
            Some(self.expires_at_millis - now_millis)
        } else {
            None
        }
    }

    /// The seconds that remain, rounded up so that a live entry never goes out
    /// with none.
    pub fn remaining_secs(self, now_millis: u64) -> (r: Option<u32>)
        ensures
            r is Some <==> self.live_at(now_millis),
            r matches Some(s) ==> s == self.seconds_at(now_millis),
            r matches Some(s) ==> s >= 1,
    {
        if self.expires_at_millis > now_millis {
            let millis: u64 = self.expires_at_millis - now_millis;
            let secs: u64 = millis / 1000 + if millis % 1000 > 0 {
                1
            } else {
                0
            };
            if secs > u32::MAX as u64 {
                Some(u32::MAX)
            } else {
                Some(secs as u32)
            }
        } else {
            None
        }
    }

    pub fn is_live(self, now_millis: u64) -> (r: bool)
        ensures
            r == self.live_at(now_millis),
    {
        self.expires_at_millis > now_millis
    }

    /// A lifetime that is over at any time.
    pub fn expired() -> (r: Self)
        ensures
            forall|now: u64| !r.live_at(now),
    {
        TtlLifetime { expires_at_millis: 0 }
    }
}

/// An entry never outlives the lifetime that it was stored with, whenever it
/// is looked at.
pub proof fn law_entry_never_outlives_its_ttl(ttl: u32, stored_at: u64, now: u64)
    requires
        stored_at <= now,
        lifetime_of(ttl, stored_at).live_at(now),
    ensures
        now - stored_at < ttl * 1000,
        lifetime_of(ttl, stored_at).seconds_at(now) <= ttl,
{
}

/// An entry that can be out of date.
pub trait Expiring: View + Sized {
    /// The entry can still be used at `now`, under the trust anchors of the
    /// given generation.
    spec fn usable(v: Self::V, now_millis: u64, generation: u64) -> bool;

    fn is_usable(&self, now_millis: u64, generation: u64) -> (r: bool)
        ensures
            r == Self::usable(self@, now_millis, generation),
    ;
}

/// What a look at the entry under `k` leaves: one that can be used becomes the
/// most recently used, one that cannot is gone.
pub open spec fn after_fetch<K, V>(s: Seq<(K, V)>, k: K, usable: bool) -> Seq<(K, V)> {
    if usable {
        touched(s, k)
    } else {
        without(s, k)
    }
}

/// There is an entry under `k` that can be used.
pub open spec fn has_usable<K, E: Expiring>(
    s: Seq<(K, E::V)>,
    k: K,
    now_millis: u64,
    generation: u64,
) -> bool {
    lookup(s, k) is Some && E::usable(lookup(s, k)->0, now_millis, generation)
}

/// Looks at the entry under `k`. What comes back says whether it can be used.
pub fn fetch<K: CacheKey, E: Expiring>(
    map: &mut LruMap<K, E>,
    k: &K,
    now_millis: u64,
    generation: u64,
) -> (r: bool)
    ensures
        r == has_usable::<K::V, E>(old(map)@, k@, now_millis, generation),
        final(map)@ == after_fetch(old(map)@, k@, r),
        final(map).capacity() == old(map).capacity(),
{
    let live: bool = match map.peek(k) {
        Some(e) => e.is_usable(now_millis, generation),
        None => false,
    };
    if live {
        let _ = map.touch(k);
    } else {
        let _ = map.pop(k);
    }
    live
}

impl CacheKey for Name {
    fn same_key(&self, other: &Self) -> (r: bool) {
        self.eq_exact(other)
    }
}

/// The addresses of one name server.
pub struct NsAddrEntry {
    pub addrs: Vec<IpAddr>,
    pub lifetime: TtlLifetime,
}

pub struct NsAddrView {
    pub addrs: Seq<IpAddr>,
    pub lifetime: TtlLifetime,
}

impl View for NsAddrEntry {
    type V = NsAddrView;

    open spec fn view(&self) -> NsAddrView {
        NsAddrView { addrs: self.addrs@, lifetime: self.lifetime }
    }
}

impl Expiring for NsAddrEntry {
    open spec fn usable(v: NsAddrView, now_millis: u64, generation: u64) -> bool {
        v.lifetime.live_at(now_millis)
    }

    fn is_usable(&self, now_millis: u64, generation: u64) -> (r: bool) {
        self.lifetime.is_live(now_millis)
    }
}

/// The servers of one zone.
pub struct DelegationEntry {
    pub servers: Vec<SocketAddr>,
    pub lifetime: TtlLifetime,
}

pub struct DelegationView {
    pub servers: Seq<SocketAddr>,
    pub lifetime: TtlLifetime,
}

impl View for DelegationEntry {
    type V = DelegationView;

    open spec fn view(&self) -> DelegationView {
        DelegationView { servers: self.servers@, lifetime: self.lifetime }
    }
}

impl Expiring for DelegationEntry {
    open spec fn usable(v: DelegationView, now_millis: u64, generation: u64) -> bool {
        v.lifetime.live_at(now_millis)
    }

    fn is_usable(&self, now_millis: u64, generation: u64) -> (r: bool) {
        self.lifetime.is_live(now_millis)
    }
}

/// The keys of one zone, as received and not validated yet.
pub struct DnskeyEntry {
    pub keys: ZoneKeys,
    pub lifetime: TtlLifetime,
}

pub struct DnskeyEntryView {
    pub keys: ZoneKeysView,
    pub lifetime: TtlLifetime,
}

impl View for DnskeyEntry {
    type V = DnskeyEntryView;

    open spec fn view(&self) -> DnskeyEntryView {
        DnskeyEntryView { keys: self.keys@, lifetime: self.lifetime }
    }
}

impl Expiring for DnskeyEntry {
    open spec fn usable(v: DnskeyEntryView, now_millis: u64, generation: u64) -> bool {
        v.lifetime.live_at(now_millis)
    }

    fn is_usable(&self, now_millis: u64, generation: u64) -> (r: bool) {
        self.lifetime.is_live(now_millis)
    }
}

/// What the chain from the trust anchors says of a zone.
pub enum ZoneTrust {
    /// The zone has these keys.
    Secure(Vec<Dnskey>),
    /// A parent proves that the zone is not signed.
    Insecure,
}

pub enum ZoneTrustView {
    Secure(Seq<DnskeyView>),
    Insecure,
}

impl View for ZoneTrust {
    type V = ZoneTrustView;

    open spec fn view(&self) -> ZoneTrustView {
        match self {
            ZoneTrust::Secure(k) => ZoneTrustView::Secure(views(k@)),
            ZoneTrust::Insecure => ZoneTrustView::Insecure,
        }
    }
}

impl Replicate for ZoneTrust {
    fn replicate(&self) -> (r: Self) {
        match self {
            ZoneTrust::Secure(k) => ZoneTrust::Secure(replicate_all(k)),
            ZoneTrust::Insecure => ZoneTrust::Insecure,
        }
    }
}

/// What was found out about a zone, and under which trust anchors.
pub struct ValidatedKeyEntry {
    pub trust: ZoneTrust,
    pub generation: u64,
    pub lifetime: TtlLifetime,
}

pub struct ValidatedKeyView {
    pub trust: ZoneTrustView,
    pub generation: u64,
    pub lifetime: TtlLifetime,
}

impl View for ValidatedKeyEntry {
    type V = ValidatedKeyView;

    open spec fn view(&self) -> ValidatedKeyView {
        ValidatedKeyView {
            trust: self.trust@,
            generation: self.generation,
            lifetime: self.lifetime,
        }
    }
}

impl Expiring for ValidatedKeyEntry {
    open spec fn usable(v: ValidatedKeyView, now_millis: u64, generation: u64) -> bool {
        v.lifetime.live_at(now_millis) && v.generation == generation
    }

    fn is_usable(&self, now_millis: u64, generation: u64) -> (r: bool) {
        self.lifetime.is_live(now_millis) && self.generation == generation
    }
}

/// The key under which a zone of `k` labels on the way to `qname` is kept.
pub open spec fn path_key(qname: Seq<Seq<u8>>, k: int) -> Seq<Seq<u8>> {
    fold_case(last_labels(qname, k))
}

/// The cache after the search for the deepest delegation of at most `k`
/// labels, and what it found: the number of labels and the servers.
pub open spec fn deepest_from(
    s: Seq<(Seq<Seq<u8>>, DelegationView)>,
    qname: Seq<Seq<u8>>,
    k: int,
    now_millis: u64,
) -> (Seq<(Seq<Seq<u8>>, DelegationView)>, Option<(int, Seq<SocketAddr>)>)
    decreases k,
{
    if k <= 0 {
        (s, None)
    } else {
        let key = path_key(qname, k);
        if has_usable::<Seq<Seq<u8>>, DelegationEntry>(s, key, now_millis, 0) {
            (touched(s, key), Some((k, lookup(s, key)->0.servers)))
        } else {
            deepest_from(without(s, key), qname, k - 1, now_millis)
        }
    }
}

pub proof fn lemma_path_keys_differ(qname: Seq<Seq<u8>>, a: int, b: int)
    requires
        0 <= a <= qname.len(),
        0 <= b <= qname.len(),
        a != b,
    ensures
        path_key(qname, a) != path_key(qname, b),
{
    assert(path_key(qname, a).len() == a);
    assert(path_key(qname, b).len() == b);
}

/// The delegation that is found lives, and no longer suffix of the name has
/// one that does.
pub proof fn law_deepest_live_delegation_is_found(
    s: Seq<(Seq<Seq<u8>>, DelegationView)>,
    qname: Seq<Seq<u8>>,
    k: int,
    now_millis: u64,
)
    requires
        crate::lru::keys_distinct(s),
        0 <= k <= qname.len(),
    ensures
        deepest_from(s, qname, k, now_millis).1 matches Some(found) ==> {
            &&& 1 <= found.0 <= k
            &&& has_usable::<Seq<Seq<u8>>, DelegationEntry>(s, path_key(qname, found.0), now_millis, 0)
            &&& lookup(s, path_key(qname, found.0))->0.servers == found.1
            &&& forall|j: int|
                found.0 < j <= k ==> !has_usable::<Seq<Seq<u8>>, DelegationEntry>(
                    s,
                    #[trigger] path_key(qname, j),
                    now_millis,
                    0,
                )
        },
        deepest_from(s, qname, k, now_millis).1 is None ==> forall|j: int|
            1 <= j <= k ==> !has_usable::<Seq<Seq<u8>>, DelegationEntry>(
                s,
                #[trigger] path_key(qname, j),
                now_millis,
                0,
            ),
    decreases k,
{
    if k > 0 {
        let key = path_key(qname, k);
        if !has_usable::<Seq<Seq<u8>>, DelegationEntry>(s, key, now_millis, 0) {
            lemma_without(s, key);
            let w = without(s, key);
            law_deepest_live_delegation_is_found(w, qname, k - 1, now_millis);
            assert forall|j: int| 1 <= j <= k - 1 implies lookup(w, #[trigger] path_key(qname, j))
                == lookup(s, path_key(qname, j)) by {
                lemma_path_keys_differ(qname, j, k);
            }
        }
    }
}

/// The cache without any zone of one up to `k` labels on the way to `qname`.
pub open spec fn evicted(
    s: Seq<(Seq<Seq<u8>>, DelegationView)>,
    qname: Seq<Seq<u8>>,
    k: int,
) -> Seq<(Seq<Seq<u8>>, DelegationView)>
    decreases k,
{
    if k <= 0 {
        s
    } else {
        without(evicted(s, qname, k - 1), path_key(qname, k))
    }
}

/// After the path is evicted nothing on it is found, whatever the time; zones
/// off the path stay.
pub proof fn law_evicted_path_is_gone(
    s: Seq<(Seq<Seq<u8>>, DelegationView)>,
    qname: Seq<Seq<u8>>,
    k: int,
)
    requires
        crate::lru::keys_distinct(s),
        0 <= k <= qname.len(),
    ensures
        crate::lru::keys_distinct(evicted(s, qname, k)),
        forall|j: int| 1 <= j <= k ==> !has_key(evicted(s, qname, k), #[trigger] path_key(qname, j)),
        forall|x: Seq<Seq<u8>>|
            (forall|j: int| 1 <= j <= k ==> x != #[trigger] path_key(qname, j)) ==> #[trigger] lookup(
                evicted(s, qname, k),
                x,
            ) == lookup(s, x),
    decreases k,
{
    if k > 0 {
        law_evicted_path_is_gone(s, qname, k - 1);
        let e = evicted(s, qname, k - 1);
        let key = path_key(qname, k);
        lemma_without(e, key);
        let w = without(e, key);
        assert forall|j: int| 1 <= j <= k implies !has_key(w, #[trigger] path_key(qname, j)) by {
            if j < k {
                lemma_path_keys_differ(qname, j, k);
                assert(lookup(w, path_key(qname, j)) == lookup(e, path_key(qname, j)));
            }
        }
        assert forall|x: Seq<Seq<u8>>|
            (forall|j: int| 1 <= j <= k ==> x != #[trigger] path_key(
                qname,
                j,
            )) implies #[trigger] lookup(w, x) == lookup(s, x) by {
            assert(x != path_key(qname, k));
            assert(lookup(w, x) == lookup(e, x));
        }
    }
}

/// A lifetime lasts exactly as many seconds as it was made for: it is live at every
/// millisecond before its end, and at none from there on.
pub proof fn law_a_lifetime_lasts_its_seconds(ttl: u32, stored_at: u64, now: u64)
    requires
        stored_at <= now,
        stored_at + ttl * 1000 <= u64::MAX,
    ensures
        lifetime_of(ttl, stored_at).live_at(now) <==> now - stored_at < ttl * 1000,
        lifetime_of(ttl, stored_at).live_at(now) ==> {
            let s = lifetime_of(ttl, stored_at).seconds_at(now);
            &&& 1 <= s <= ttl
            &&& (s - 1) * 1000 < stored_at + ttl * 1000 - now <= s * 1000
        },
        ttl > 0 ==> lifetime_of(ttl, stored_at).seconds_at(stored_at) == ttl,
{
}

/// A look at an entry that can be used leaves all entries as they are, that one as the
/// most recently used; a look at one that cannot be used, or is not there, leaves none
/// under that key and all others.
pub proof fn law_what_a_look_leaves<K, V>(s: Seq<(K, V)>, k: K, usable: bool)
    requires
        crate::lru::keys_distinct(s),
    ensures
        usable ==> forall|x: K| #[trigger] lookup(after_fetch(s, k, usable), x) == lookup(s, x),
        !usable ==> lookup(after_fetch(s, k, usable), k) is None,
        !usable ==> forall|x: K|
            x != k ==> #[trigger] lookup(after_fetch(s, k, usable), x) == lookup(s, x),
        crate::lru::keys_distinct(after_fetch(s, k, usable)),
        after_fetch(s, k, usable).len() <= s.len(),
{
    crate::lru::law_touch_keeps_the_entries(s, k);
    crate::lru::law_removing_takes_one_entry(s, k);
}

/// An entry can be used exactly if it is there, still holds, and, of a verdict, was
/// reached under the same anchors.
pub proof fn law_what_can_be_used(
    a: Seq<(Seq<Seq<u8>>, NsAddrView)>,
    b: Seq<(Seq<Seq<u8>>, DelegationView)>,
    c: Seq<(Seq<Seq<u8>>, DnskeyEntryView)>,
    d: Seq<(Seq<Seq<u8>>, ValidatedKeyView)>,
    k: Seq<Seq<u8>>,
    now: u64,
    generation: u64,
)
    ensures
        has_usable::<Seq<Seq<u8>>, NsAddrEntry>(a, k, now, generation) <==> (lookup(a, k)
            matches Some(e) && e.lifetime.expires_at_millis > now),
        has_usable::<Seq<Seq<u8>>, DelegationEntry>(b, k, now, generation) <==> (lookup(b, k)
            matches Some(e) && e.lifetime.expires_at_millis > now),
        has_usable::<Seq<Seq<u8>>, DnskeyEntry>(c, k, now, generation) <==> (lookup(c, k)
            matches Some(e) && e.lifetime.expires_at_millis > now),
        has_usable::<Seq<Seq<u8>>, ValidatedKeyEntry>(d, k, now, generation) <==> (lookup(d, k)
            matches Some(e) && e.lifetime.expires_at_millis > now && e.generation == generation),
{
}

/// The deepest delegation that still holds is found by the names around the question, and
/// the search leaves every entry that still holds where it is.
pub proof fn law_the_deepest_delegation_around_the_question(
    s: Seq<(Seq<Seq<u8>>, DelegationView)>,
    qname: Seq<Seq<u8>>,
    now_millis: u64,
    j: int,
)
    requires
        crate::lru::keys_distinct(s),
        1 <= j <= qname.len(),
        lookup(s, fold_case(qname.skip(qname.len() - j))) is Some,
        lookup(s, fold_case(qname.skip(qname.len() - j)))->0.lifetime.expires_at_millis
            > now_millis,
    ensures
        deepest_from(s, qname, qname.len() as int, now_millis).1 matches Some(f) && j <= f.0
            <= qname.len() && (f.0 == j ==> f.1 == lookup(
            s,
            fold_case(qname.skip(qname.len() - j)),
        )->0.servers),
{
    law_deepest_live_delegation_is_found(s, qname, qname.len() as int, now_millis);
    assert(path_key(qname, j) == fold_case(qname.skip(qname.len() - j)));
    assert(has_usable::<Seq<Seq<u8>>, DelegationEntry>(s, path_key(qname, j), now_millis, 0));
}

} // verus!
