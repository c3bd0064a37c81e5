//! Finding the addresses of name servers, and choosing where a search starts.

use vstd::prelude::*;

use crate::addr::{plain_addr, sort_distinct, sorted_distinct, IpAddr, SocketAddr};
use crate::cache::{
    after_fetch, deepest_from, evicted, has_usable, NsAddrEntry, NsAddrView, ValidatedKeyEntry,
};
use crate::chain::least_of_ttls;
use crate::iterate::{addr_of, address_in};
use crate::lru::{lookup, touched, without};
use crate::message::{Message, MessageView, RData, Record, RecordView, CLASS_IN};
use crate::name::{fold_case, last_labels, Name};
use crate::recursor::{keep_addrs, kept_addrs, Budget, Recursor};
use crate::response::{min_optional_ttl, min_ttl};
use crate::seqs::{lemma_filter_holds, pick, views};

verus! {

/// The search for the addresses of some name servers.
pub struct NsAddrSearch {
    pub names: Vec<Name>,
    /// The name that is due.
    pub at: usize,
    pub addrs: Vec<SocketAddr>,
    pub ttl: Option<u32>,
}

pub struct NsAddrSearchView {
    pub names: Seq<Seq<Seq<u8>>>,
    pub at: int,
    pub addrs: Seq<SocketAddr>,
    pub ttl: Option<u32>,
}

impl View for NsAddrSearch {
    type V = NsAddrSearchView;

    open spec fn view(&self) -> NsAddrSearchView {
        NsAddrSearchView {
            names: views(self.names@),
            at: self.at as int,
            addrs: self.addrs@,
            ttl: self.ttl,
        }
    }
}

pub open spec fn at_port(ips: Seq<IpAddr>, port: u16) -> Seq<SocketAddr> {
    Seq::new(ips.len(), |i: int| plain_addr(ips[i], port))
}

/// What a look through the names comes to.
pub struct NsScan {
    pub cache: Seq<(Seq<Seq<u8>>, NsAddrView)>,
    pub search: NsAddrSearchView,
    pub ns_resolves: usize,
    /// Whether the name at the new place has to be resolved.
    pub resolve: bool,
}

/// Goes through the names from the present place on. Addresses that are known
/// are taken; the first name without any is to be resolved, which is paid for;
/// where nothing is left to pay with, the rest is given up.
pub open spec fn scanned(
    cache: Seq<(Seq<Seq<u8>>, NsAddrView)>,
    s: NsAddrSearchView,
    ns_resolves: usize,
    port: u16,
    now_millis: u64,
) -> NsScan
    decreases s.names.len() - s.at,
{
    if s.at >= s.names.len() {
        NsScan { cache, search: s, ns_resolves, resolve: false }
    } else {
        let key = fold_case(s.names[s.at]);
        if has_usable::<Seq<Seq<u8>>, NsAddrEntry>(cache, key, now_millis, 0) {
            let e = lookup(cache, key)->0;
            scanned(
                touched(cache, key),
                NsAddrSearchView {
                    at: s.at + 1,
                    addrs: s.addrs + at_port(e.addrs, port),
                    ttl: min_ttl(s.ttl, Some(e.lifetime.seconds_at(now_millis) as u32)),
                    ..s
                },
                ns_resolves,
                port,
                now_millis,
            )
        } else if ns_resolves == 0 {
            NsScan {
                cache: without(cache, key),
                search: NsAddrSearchView { at: s.names.len() as int, ..s },
                ns_resolves,
                resolve: false,
            }
        } else {
            NsScan {
                cache: without(cache, key),
                search: s,
                ns_resolves: (ns_resolves - 1) as usize,
                resolve: true,
            }
        }
    }
}

pub open spec fn is_v4_address() -> spec_fn(RecordView) -> bool {
    |r: RecordView| r.class == CLASS_IN && r.rdata is A
}

pub open spec fn is_v6_address() -> spec_fn(RecordView) -> bool {
    |r: RecordView| r.class == CLASS_IN && r.rdata is Aaaa
}

pub open spec fn addresses(s: Seq<RecordView>) -> Seq<IpAddr> {
    Seq::new(s.len(), |i: int| addr_of(s[i].rdata)->0)
}

/// The address records that answer for a name server: those of each family
/// that is in use, IPv4 first.
pub open spec fn address_records(
    r: Recursor,
    v4: Option<MessageView>,
    v6: Option<MessageView>,
) -> Seq<RecordView> {
    (if r.do_ip4 && v4 is Some {
        v4->0.answers.filter(is_v4_address())
    } else {
        Seq::empty()
    }) + (if r.do_ip6 && v6 is Some {
        v6->0.answers.filter(is_v6_address())
    } else {
        Seq::empty()
    })
}

fn v4_records(m: &Message) -> (r: Vec<Record>)
    ensures
        views(r@) == m@.answers.filter(is_v4_address()),
{
    pick(
        &m.answers,
        |r: &Record| -> (b: bool)
            ensures
                b == is_v4_address()(r@)
            {
                r.class == CLASS_IN && match &r.rdata {
                    RData::A(_) => true,
                    _ => false,
                }
            },
        Ghost(is_v4_address()),
    )
}

fn v6_records(m: &Message) -> (r: Vec<Record>)
    ensures
        views(r@) == m@.answers.filter(is_v6_address()),
{
    pick(
        &m.answers,
        |r: &Record| -> (b: bool)
            ensures
                b == is_v6_address()(r@)
            {
                r.class == CLASS_IN && match &r.rdata {
                    RData::Aaaa(_) => true,
                    _ => false,
                }
            },
        Ghost(is_v6_address()),
    )
}

proof fn lemma_address_records(r: Recursor, v4: Option<MessageView>, v6: Option<MessageView>)
    ensures
        forall|i: int|
            0 <= i < address_records(r, v4, v6).len() ==> addr_of(
                (#[trigger] address_records(r, v4, v6)[i]).rdata,
            ) is Some,
{
    let all = address_records(r, v4, v6);
    let p4 = is_v4_address();
    let p6 = is_v6_address();
    let a = if r.do_ip4 && v4 is Some {
        lemma_filter_holds(v4->0.answers, p4);
        v4->0.answers.filter(p4)
    } else {
        Seq::empty()
    };
    let b = if r.do_ip6 && v6 is Some {
        lemma_filter_holds(v6->0.answers, p6);
        v6->0.answers.filter(p6)
    } else {
        Seq::empty()
    };
    assert forall|i: int| 0 <= i < all.len() implies addr_of((#[trigger] all[i]).rdata) is Some by {
        if i < a.len() {
            assert(all[i] == a[i]);
            assert(p4(a[i]));
        } else {
            assert(all[i] == b[i - a.len()]);
            assert(p6(b[i - a.len()]));
        }
    }
}

/// The records' addresses, and the smallest of their lifetimes.
fn read_addresses(records: &Vec<Record>) -> (r: (Vec<IpAddr>, u32))
    requires
        forall|k: int|
            0 <= k < records.len() ==> addr_of((#[trigger] views(records@)[k]).rdata) is Some,
    ensures
        r.0@ == addresses(views(records@)),
        r.1 == least_of_ttls(views(records@), u32::MAX),
{
    let ghost want = views(records@);
    let mut resolved: Vec<IpAddr> = Vec::new();
    let mut ttl: u32 = u32::MAX;
    let mut i: usize = 0;
    assert(want.take(0) =~= Seq::<RecordView>::empty());
    while i < records.len()
        invariant
            i <= records.len(),
            views(records@) == want,
            forall|k: int| 0 <= k < want.len() ==> addr_of((#[trigger] want[k]).rdata) is Some,
            resolved@ =~= addresses(want).take(i as int),
            ttl == least_of_ttls(want.take(i as int), u32::MAX),
        decreases records.len() - i,
    {
        assert(want[i as int] == records@[i as int]@);
        if let Some(ip) = address_in(&records[i].rdata) {
            resolved.push(ip);
        }
        let t: u32 = records[i].ttl;
        if t < ttl {
            ttl = t;
        }
        proof {
            let next = want.take(i + 1);
            assert(next.drop_last() =~= want.take(i as int));
            assert(next.last() == want[i as int]);
        }
        i = i + 1;
    }
    assert(want.take(want.len() as int) =~= want);
    assert(resolved@ =~= addresses(want));
    (resolved, ttl)
}

/// Adds the addresses, each with the port.
fn push_at_port(addrs: &mut Vec<SocketAddr>, ips: &Vec<IpAddr>, port: u16)
    ensures
        final(addrs)@ == old(addrs)@ + at_port(ips@, port),
{
    let ghost start = addrs@;
    let mut i: usize = 0;
    while i < ips.len()
        invariant
            i <= ips.len(),
            addrs@ =~= start + at_port(ips@, port).take(i as int),
        decreases ips.len() - i,
    {
        addrs.push(SocketAddr::new(ips[i], port));
        i = i + 1;
    }
    assert(at_port(ips@, port).take(ips@.len() as int) =~= at_port(ips@, port));
}

pub open spec fn of_eligible(r: Recursor) -> spec_fn(SocketAddr) -> bool {
    |s: SocketAddr| r.eligible(s.ip)
}

impl NsAddrSearch {
    /// Goes on to the next name.
    fn skip(&mut self)
        requires
            old(self).at < old(self).names.len(),
        ensures
            final(self)@ == (NsAddrSearchView { at: old(self)@.at + 1, ..old(self)@ }),
    {
        self.at = self.at + 1;
    }

    /// Takes the addresses of the name at hand in, and goes on to the next one.
    fn found(&mut self, ips: &Vec<IpAddr>, port: u16, ttl: u32)
        requires
            old(self).at < old(self).names.len(),
        ensures
            final(self)@ == (NsAddrSearchView {
                at: old(self)@.at + 1,
                addrs: old(self)@.addrs + at_port(ips@, port),
                ttl: min_ttl(old(self)@.ttl, Some(ttl)),
                ..old(self)@
            }),
    {
        self.ttl = min_optional_ttl(self.ttl, Some(ttl));
        push_at_port(&mut self.addrs, ips, port);
        self.at = self.at + 1;
    }
}

impl Recursor {
    /// Goes on with the search. What comes back is the name to resolve next;
    /// nothing, where the search is over.
    pub fn ns_search_next(
        &mut self,
        search: &mut NsAddrSearch,
        budget: &mut Budget,
        now_millis: u64,
    ) -> (r: Option<Name>)
        ensures
            ({
                let t = scanned(
                    old(self).ns_addr_cache@,
                    old(search)@,
                    old(budget).ns_resolves,
                    old(self).port,
                    now_millis,
                );
                &&& final(self).ns_addr_cache@ == t.cache
                &&& final(search)@ == t.search
                &&& *final(budget) == (Budget { ns_resolves: t.ns_resolves, ..*old(budget) })
                &&& r is Some <==> t.resolve
                &&& r matches Some(n) ==> t.search.at < t.search.names.len() && n@
                    == t.search.names[t.search.at]
            }),
            *final(self) == (Recursor { ns_addr_cache: final(self).ns_addr_cache, ..*old(self) }),
            final(self).same_room(*old(self)),
    {
        let ghost want = scanned(
            self.ns_addr_cache@,
            search@,
            budget.ns_resolves,
            self.port,
            now_millis,
        );
        while search.at < search.names.len()
            invariant
                want == scanned(
                    old(self).ns_addr_cache@,
                    old(search)@,
                    old(budget).ns_resolves,
                    old(self).port,
                    now_millis,
                ),
                want == scanned(
                    self.ns_addr_cache@,
                    search@,
                    budget.ns_resolves,
                    self.port,
                    now_millis,
                ),
                *budget == *old(budget),
                *self == (Recursor { ns_addr_cache: self.ns_addr_cache, ..*old(self) }),
                self.same_room(*old(self)),
            decreases search.names.len() - search.at,
        {
            let key = search.names[search.at].canonical_key();
            let ghost before = search@;
            assert(before.names[before.at] == search.names@[search.at as int]@);
            match self.ns_addr_cached_with_ttl(&key, now_millis) {
                Some((ips, secs)) => {
                    push_at_port(&mut search.addrs, &ips, self.port);
                    search.ttl = min_optional_ttl(search.ttl, Some(secs));
                    proof {
                        assert(search.names@.len() == before.names.len());
                    }
                    search.at = search.at + 1;
                },
                None => {
                    if budget.ns_resolves == 0 {
                        search.at = search.names.len();
                        return None;
                    }
                    budget.ns_resolves = budget.ns_resolves - 1;
                    return Some(search.names[search.at].clone());
                },
            }
        }
        None
    }

    /// Takes in what resolving the name that was due gave, for each family:
    /// the response, or `None` where there was none. The addresses are
    /// remembered.
    pub fn ns_search_absorb(
        &mut self,
        search: &mut NsAddrSearch,
        v4: Option<&Message>,
        v6: Option<&Message>,
        now_millis: u64,
    )
        requires
            old(search).at < old(search).names.len(),
        ensures
            ({
                let s = old(search)@;
                let records = address_records(*old(self), opt_view(v4), opt_view(v6));
                let kept = kept_addrs(addresses(records));
                let ttl = least_of_ttls(records, u32::MAX);
                if records.len() == 0 {
                    &&& final(self).ns_addr_cache@ == old(self).ns_addr_cache@
                    &&& final(search)@ == (NsAddrSearchView { at: s.at + 1, ..s })
                } else {
                    &&& final(self).ns_addr_cache@ == old(self).ns_addrs_stored(
                        fold_case(s.names[s.at]),
                        kept,
                        ttl,
                        now_millis,
                    )
                    &&& final(search)@ == (NsAddrSearchView {
                        at: s.at + 1,
                        addrs: s.addrs + at_port(kept, old(self).port),
                        ttl: min_ttl(s.ttl, Some(ttl)),
                        ..s
                    })
                }
            }),
            *final(self) == (Recursor { ns_addr_cache: final(self).ns_addr_cache, ..*old(self) }),
            final(self).same_room(*old(self)),
    {
        let records = self.gather_addresses(v4, v6);
        let (resolved, ttl) = read_addresses(&records);
        assert(views(records@).len() == records.len());
        if resolved.len() > 0 {
            let kept = keep_addrs(&resolved);
            let key = search.names[search.at].canonical_key();
            assert(search@.names[search@.at] == search.names@[search.at as int]@);
            self.ns_addr_store(key, &kept, ttl, now_millis);
            search.found(&kept, self.port, ttl);
        } else {
            search.skip();
        }
    }

    fn gather_addresses(&self, v4: Option<&Message>, v6: Option<&Message>) -> (r: Vec<Record>)
        ensures
            views(r@) == address_records(*self, opt_view(v4), opt_view(v6)),
            forall|k: int| 0 <= k < r.len() ==> addr_of((#[trigger] views(r@)[k]).rdata) is Some,
    {
        let ghost want = address_records(*self, opt_view(v4), opt_view(v6));
        let mut records: Vec<Record> = Vec::new();
        assert(views(records@) =~= Seq::<RecordView>::empty());
        if self.do_ip4 {
            if let Some(m) = v4 {
                records = v4_records(m);
            }
        }
        if self.do_ip6 {
            if let Some(m) = v6 {
                let mut more = v6_records(m);
                let ghost a = records@;
                let ghost b = more@;
                records.append(&mut more);
                assert(views(records@) =~= views(a) + views(b));
            }
        }
        assert(views(records@) =~= want);
        proof {
            lemma_address_records(*self, opt_view(v4), opt_view(v6));
        }
        records
    }

    /// What the search found: the addresses that may be asked, sorted and each
    /// once, and how long they hold.
    pub fn ns_search_finish(&self, search: NsAddrSearch) -> (r: (Vec<SocketAddr>, Option<u32>))
        ensures
            r.0@ == sorted_distinct(search@.addrs.filter(of_eligible(*self))),
            r.1 == search@.ttl,
    {
        let kept = pick(
            &search.addrs,
            |s: &SocketAddr| -> (b: bool)
                ensures
                    b == of_eligible(*self)(s@)
                { self.server_eligible(s.ip) },
            Ghost(of_eligible(*self)),
        );
        assert(views(search.addrs@) =~= search.addrs@);
        assert(views(kept@) =~= kept@);
        (sort_distinct(&kept), search.ttl)
    }

    /// A search may start in `zone`: nothing is validated, or what the chain
    /// above the zone says of it is known already.
    pub open spec fn start_ok(self, zone: Seq<Seq<u8>>, honor_cd: bool, now_millis: u64) -> bool {
        !self.validates(honor_cd) || has_usable::<Seq<Seq<u8>>, ValidatedKeyEntry>(
            self.validated_keys@,
            fold_case(zone),
            now_millis,
            self.anchor_generation,
        )
    }

    /// Whether a search may start in `zone`.
    pub fn validated_start_ok(&mut self, zone: &Name, honor_cd: bool, now_millis: u64) -> (r: bool)
        ensures
            r == old(self).start_ok(zone@, honor_cd, now_millis),
            final(self).validated_keys@ == if old(self).validates(honor_cd) {
                after_fetch(old(self).validated_keys@, fold_case(zone@), r)
            } else {
                old(self).validated_keys@
            },
            *final(self) == (Recursor { validated_keys: final(self).validated_keys, ..*old(self) }),
            final(self).same_room(*old(self)),
    {
        if !self.validating(honor_cd) {
            return true;
        }
        let key = zone.canonical_key();
        let generation: u64 = self.anchor_generation;
        self.validated_keys_cached(&key, generation, now_millis).is_some()
    }

    /// The zone and servers to start from, where something on the way to
    /// `qname` is known and may be started from.
    pub fn cached_start(&mut self, qname: &Name, honor_cd: bool, now_millis: u64) -> (r: Option<
        (Name, Vec<SocketAddr>),
    >)
        ensures
            ({
                let found = deepest_from(
                    old(self).deleg_cache@,
                    qname@,
                    qname@.len() as int,
                    now_millis,
                );
                &&& final(self).deleg_cache@ == found.0
                &&& match found.1 {
                    Some(f) => {
                        let zone = last_labels(qname@, f.0);
                        let ok = old(self).start_ok(zone, honor_cd, now_millis);
                        &&& r is Some <==> ok
                        &&& r matches Some(d) ==> d.0@ == zone && d.1@ == f.1
                        &&& final(self).validated_keys@ == if old(self).validates(honor_cd) {
                            after_fetch(old(self).validated_keys@, fold_case(zone), ok)
                        } else {
                            old(self).validated_keys@
                        }
                    },
                    None => r is None && final(self).validated_keys@ == old(self).validated_keys@,
                }
            }),
            *final(self) == (Recursor {
                deleg_cache: final(self).deleg_cache,
                validated_keys: final(self).validated_keys,
                ..*old(self)
            }),
            final(self).same_room(*old(self)),
    {
        match self.deepest_cached_delegation(qname, now_millis) {
            Some((zone, servers)) => {
                if self.validated_start_ok(&zone, honor_cd, now_millis) {
                    Some((zone, servers))
                } else {
                    None
                }
            },
            None => None,
        }
    }

    /// Judges a walk that started from a known zone. `leaf` is the zone that it
    /// ended in, `None` where it failed. Where it is not accepted the search
    /// starts over from the root, with the side queries given back; after a
    /// failure the zones on the way are forgotten.
    pub fn accept_cached_walk(
        &mut self,
        qname: &Name,
        leaf: Option<&Name>,
        saved_ns_resolves: usize,
        budget: &mut Budget,
        honor_cd: bool,
        now_millis: u64,
    ) -> (r: bool)
        ensures
            ({
                match leaf {
                    Some(z) => {
                        let ok = old(self).start_ok(z@, honor_cd, now_millis);
                        &&& r == ok
                        &&& final(self).deleg_cache@ == old(self).deleg_cache@
                        &&& final(self).validated_keys@ == if old(self).validates(honor_cd) {
                            after_fetch(old(self).validated_keys@, fold_case(z@), ok)
                        } else {
                            old(self).validated_keys@
                        }
                    },
                    None => {
                        &&& !r
                        &&& final(self).deleg_cache@ == evicted(
                            old(self).deleg_cache@,
                            qname@,
                            qname@.len() as int,
                        )
                        &&& final(self).validated_keys@ == old(self).validated_keys@
                    },
                }
            }),
            *final(budget) == if r {
                *old(budget)
            } else {
                Budget { ns_resolves: saved_ns_resolves, ..*old(budget) }
            },
            *final(self) == (Recursor {
                deleg_cache: final(self).deleg_cache,
                validated_keys: final(self).validated_keys,
                ..*old(self)
            }),
            final(self).same_room(*old(self)),
    {
        match leaf {
            Some(z) => {
                if self.validated_start_ok(z, honor_cd, now_millis) {
                    return true;
                }
            },
            None => {
                self.deleg_evict_path(qname);
            },
        }
        budget.ns_resolves = saved_ns_resolves;
        false
    }
}

pub open spec fn opt_view(m: Option<&Message>) -> Option<MessageView> {
    match m {
        Some(m) => Some(m@),
        None => None,
    }
}

/// A look at the cache for the addresses of name servers takes over all that is there and
/// stops at the first name that is not, if one may still be resolved: that one is then
/// the one to resolve, and one less may be. What was found before stays.
pub proof fn law_cached_addresses_are_taken(
    cache: Seq<(Seq<Seq<u8>>, NsAddrView)>,
    s: NsAddrSearchView,
    ns_resolves: usize,
    port: u16,
    now_millis: u64,
    j: int,
    ip: IpAddr,
    old: SocketAddr,
)
    requires
        crate::lru::keys_distinct(cache),
        0 <= s.at <= s.names.len(),
    ensures
        ({
            let t = scanned(cache, s, ns_resolves, port, now_millis);
            let e = lookup(cache, fold_case(s.names[j]));
            let live = e is Some && e->0.lifetime.expires_at_millis > now_millis;
            &&& t.search.names == s.names
            &&& s.at <= t.search.at <= s.names.len()
            &&& s.addrs.contains(old) ==> t.search.addrs.contains(old)
            &&& t.resolve ==> t.search.at < s.names.len() && ns_resolves > 0 && t.ns_resolves
                == ns_resolves - 1
            &&& !t.resolve ==> t.search.at == s.names.len() && t.ns_resolves == ns_resolves
            &&& t.resolve && j == t.search.at ==> !live
            &&& s.at <= j < t.search.at && ns_resolves > 0 ==> live
            &&& s.at <= j < t.search.at && live && ns_resolves > 0 && e->0.addrs.contains(ip)
                ==> t.search.addrs.contains(plain_addr(ip, port))
            &&& j == s.at && s.at < s.names.len() && live && e->0.addrs.contains(ip)
                ==> t.search.addrs.contains(plain_addr(ip, port))
        }),
    decreases s.names.len() - s.at,
{
    if s.at < s.names.len() {
        let key = fold_case(s.names[s.at]);
        if has_usable::<Seq<Seq<u8>>, NsAddrEntry>(cache, key, now_millis, 0) {
            let e = lookup(cache, key)->0;
            let more = at_port(e.addrs, port);
            let next = NsAddrSearchView {
                at: s.at + 1,
                addrs: s.addrs + more,
                ttl: min_ttl(s.ttl, Some(e.lifetime.seconds_at(now_millis) as u32)),
                ..s
            };
            crate::lru::law_touch_keeps_the_entries(cache, key);
            let after = touched(cache, key);
            law_cached_addresses_are_taken(
                after,
                next,
                ns_resolves,
                port,
                now_millis,
                j,
                ip,
                old,
            );
            law_cached_addresses_are_taken(
                after,
                next,
                ns_resolves,
                port,
                now_millis,
                j,
                ip,
                plain_addr(ip, port),
            );
            if s.addrs.contains(old) {
                let k = choose|k: int| 0 <= k < s.addrs.len() && s.addrs[k] == old;
                assert(next.addrs[k] == old);
            }
            if j == s.at && e.addrs.contains(ip) {
                let k = choose|k: int| 0 <= k < e.addrs.len() && e.addrs[k] == ip;
                assert(next.addrs[s.addrs.len() + k] == plain_addr(ip, port));
            }
            assert(lookup(after, fold_case(s.names[j])) == lookup(cache, fold_case(s.names[j])));
        }
    }
}

/// The addresses that two responses give for a name: every Internet-class address of the
/// right family in the answer section, of the families that are switched on.
pub proof fn law_which_addresses_are_read(
    r: Recursor,
    v4: Option<MessageView>,
    v6: Option<MessageView>,
    x: RecordView,
)
    ensures
        address_records(r, v4, v6).contains(x) <==> {
            ||| r.do_ip4 && (v4 matches Some(m) && m.answers.contains(x)) && x.class == 1
                && x.rdata is A
            ||| r.do_ip6 && (v6 matches Some(m) && m.answers.contains(x)) && x.class == 1
                && x.rdata is Aaaa
        },
{
    let a = if r.do_ip4 && v4 is Some {
        v4->0.answers.filter(is_v4_address())
    } else {
        Seq::empty()
    };
    let b = if r.do_ip6 && v6 is Some {
        v6->0.answers.filter(is_v6_address())
    } else {
        Seq::empty()
    };
    if v4 is Some {
        crate::seqs::lemma_filter_members(v4->0.answers, is_v4_address(), x);
    }
    if v6 is Some {
        crate::seqs::lemma_filter_members(v6->0.answers, is_v6_address(), x);
    }
    let all = address_records(r, v4, v6);
    assert(all == a + b);
    if a.contains(x) {
        let i = choose|i: int| 0 <= i < a.len() && a[i] == x;
        assert(all[i] == x);
    }
    if b.contains(x) {
        let i = choose|i: int| 0 <= i < b.len() && b[i] == x;
        assert(all[a.len() + i] == x);
    }
    if all.contains(x) {
        let i = choose|i: int| 0 <= i < all.len() && all[i] == x;
        if i < a.len() {
            assert(a[i] == x);
        } else {
            assert(b[i - a.len()] == x);
        }
    }
}

/// Each record gives its own address.
pub proof fn law_each_record_gives_its_address(s: Seq<RecordView>, port: u16, i: int)
    requires
        0 <= i < s.len(),
    ensures
        addresses(s).len() == s.len(),
        s[i].rdata matches crate::message::RDataView::A(a) ==> addresses(s)[i] == IpAddr::V4(a),
        s[i].rdata matches crate::message::RDataView::Aaaa(a) ==> addresses(s)[i] == IpAddr::V6(a),
        at_port(addresses(s), port).len() == s.len(),
        at_port(addresses(s), port)[i] == (SocketAddr {
            ip: addresses(s)[i],
            port,
            flowinfo: 0,
            scope_id: 0,
        }),
{
}

/// A walk may start below the root where nothing is validated, or where a verdict on that
/// zone is at hand that still holds under the present anchors.
pub proof fn law_where_a_walk_may_start(
    r: Recursor,
    zone: Seq<Seq<u8>>,
    honor_cd: bool,
    now_millis: u64,
)
    ensures
        r.start_ok(zone, honor_cd, now_millis) <==> {
            ||| r.trust_anchors@.len() == 0
            ||| honor_cd
            ||| lookup(r.validated_keys@, fold_case(zone)) matches Some(e)
                && e.lifetime.expires_at_millis > now_millis && e.generation == r.anchor_generation
        },
{
}

} // verus!
