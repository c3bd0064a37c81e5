//! The validation of a response from beginning to end: which keys are needed, whether
//! the chain of zones down to them holds, and what the response is worth. Keys are
//! asked for and signatures are computed outside; this is what happens between.

use vstd::prelude::*;

use crate::addr::SocketAddr;
use crate::cache::{after_fetch, has_usable, DnskeyEntry, DnskeyEntryView, ZoneTrustView};
use crate::chain::{
    build_chain_links, capped, chain_validity, copy_servers, links_of, ChainLink, ChainLinkView,
    SecurityStatus, ZoneKeys, ZoneKeysView, ZoneStep, ZoneStepView,
};
use crate::lru::lookup;
use crate::message::{Dnskey, DnskeyView, Message, MessageView, EDE_UNSUPPORTED_NSEC3_ITERATIONS};
use crate::name::{fold_case, Name};
use crate::recursor::{keys_in, keys_ttl, RecurseError, Recursor};
use crate::seqs::{lemma_views_push, replicate_all, views};
use crate::validate::{
    bogus, chain_start_of, known_without_keys, trust_of, ChainFinding, ChainStart, ChainStartView,
    ChainStatus,
};

verus! {

/// How far the validation of a response has come.
pub enum Proving {
    /// The keys of the zones of the chain are gathered, from the root down.
    Gathering { chain: Vec<ZoneStep>, keys: Vec<ZoneKeys> },
    /// How many rounds of hashing each link asks for has to be found out.
    Measuring { leaf: Name, links: Vec<ChainLink> },
    /// The links have to be checked from the trust anchors down.
    Checking { leaf: Name, links: Vec<ChainLink> },
    /// The response has to be checked with the keys of the last zone.
    Trusting(Vec<Dnskey>),
    /// This is the outcome.
    Over(SecurityStatus),
}

pub enum ProvingView {
    Gathering { chain: Seq<ZoneStepView>, keys: Seq<ZoneKeysView> },
    Measuring { leaf: Seq<Seq<u8>>, links: Seq<ChainLinkView> },
    Checking { leaf: Seq<Seq<u8>>, links: Seq<ChainLinkView> },
    Trusting(Seq<DnskeyView>),
    Over(SecurityStatus),
}

impl View for Proving {
    type V = ProvingView;

    open spec fn view(&self) -> ProvingView {
        match self {
            Proving::Gathering { chain, keys } => ProvingView::Gathering {
                chain: views(chain@),
                keys: views(keys@),
            },
            Proving::Measuring { leaf, links } => ProvingView::Measuring {
                leaf: leaf@,
                links: views(links@),
            },
            Proving::Checking { leaf, links } => ProvingView::Checking {
                leaf: leaf@,
                links: views(links@),
            },
            Proving::Trusting(keys) => ProvingView::Trusting(views(keys@)),
            Proving::Over(s) => ProvingView::Over(*s),
        }
    }
}

/// While keys are gathered, those of some zone are missing.
pub open spec fn proving_valid(p: ProvingView) -> bool {
    p matches ProvingView::Gathering { chain, keys } ==> keys.len() < chain.len()
}

/// A validation at its beginning.
pub open spec fn proving_begun(
    r: Recursor,
    qname: Seq<Seq<u8>>,
    qtype: u16,
    chain: Seq<ZoneStepView>,
    positive: bool,
    now_millis: u64,
) -> ProvingView {
    match known_without_keys(r, qname, qtype, positive) {
        Some(status) => ProvingView::Over(status),
        None => match chain_start_of(r, chain, now_millis) {
            ChainStartView::Trusted(keys) => ProvingView::Trusting(keys),
            ChainStartView::Known(status) => ProvingView::Over(status),
            ChainStartView::NeedKeys => ProvingView::Gathering { chain, keys: Seq::empty() },
        },
    }
}

/// Once the keys of every zone are there, the links are built.
pub open spec fn with_keys(chain: Seq<ZoneStepView>, keys: Seq<ZoneKeysView>) -> ProvingView {
    if keys.len() < chain.len() {
        ProvingView::Gathering { chain, keys }
    } else {
        ProvingView::Measuring { leaf: chain.last().zone, links: links_of(chain, keys) }
    }
}

/// The keys of a zone as they are remembered, with the time that is left.
pub open spec fn remembered(
    cache: Seq<(Seq<Seq<u8>>, DnskeyEntryView)>,
    zone: Seq<Seq<u8>>,
    now_millis: u64,
) -> Option<ZoneKeysView> {
    let key = fold_case(zone);
    if has_usable::<Seq<Seq<u8>>, DnskeyEntry>(cache, key, now_millis, 0) {
        let e = lookup(cache, key)->0;
        Some(
            ZoneKeysView {
                records: capped(e.keys.records, Some(e.lifetime.seconds_at(now_millis) as u32)),
                signatures: e.keys.signatures,
            },
        )
    } else {
        None
    }
}

/// The keys with those behind them that are remembered, up to the first zone whose
/// keys are not, and the cache afterwards.
pub open spec fn gathered(
    cache: Seq<(Seq<Seq<u8>>, DnskeyEntryView)>,
    chain: Seq<ZoneStepView>,
    keys: Seq<ZoneKeysView>,
    now_millis: u64,
) -> (Seq<(Seq<Seq<u8>>, DnskeyEntryView)>, Seq<ZoneKeysView>)
    decreases chain.len() - keys.len(),
{
    if keys.len() >= chain.len() {
        (cache, keys)
    } else {
        let zone = chain[keys.len() as int].zone;
        let after = after_fetch(
            cache,
            fold_case(zone),
            remembered(cache, zone, now_millis) is Some,
        );
        match remembered(cache, zone, now_millis) {
            Some(k) => gathered(after, chain, keys.push(k), now_millis),
            None => (after, keys),
        }
    }
}

/// After the keys of the next zone were asked for. Without them nothing is proved.
pub open spec fn keys_came(
    p: ProvingView,
    outcome: Result<MessageView, RecurseError>,
) -> ProvingView {
    match (p, outcome) {
        (ProvingView::Gathering { chain, keys }, Ok(m)) => with_keys(
            chain,
            keys.push(keys_in(m, chain[keys.len() as int].zone)),
        ),
        (ProvingView::Gathering { chain, keys }, Err(_)) => ProvingView::Over(bogus()),
        _ => p,
    }
}

/// After the rounds of hashing were counted. Too many of them are not computed.
pub open spec fn rounds_known(r: Recursor, p: ProvingView, rounds: Seq<u16>) -> ProvingView {
    match p {
        ProvingView::Measuring { leaf, links } => if exists|i: int|
            0 <= i < rounds.len() && #[trigger] rounds[i] > r.nsec3_max_iterations {
            ProvingView::Over(SecurityStatus::Bogus(EDE_UNSUPPORTED_NSEC3_ITERATIONS))
        } else {
            ProvingView::Checking { leaf, links }
        },
        _ => p,
    }
}

/// After the links were checked.
pub open spec fn links_judged(p: ProvingView, status: ChainStatus) -> ProvingView {
    match p {
        ProvingView::Checking { leaf, links } => match status {
            ChainStatus::Secure(keys) => ProvingView::Trusting(views(keys@)),
            ChainStatus::Insecure => ProvingView::Over(SecurityStatus::Insecure),
            ChainStatus::Bogus => ProvingView::Over(bogus()),
        },
        _ => p,
    }
}

pub open spec fn outcome_view(outcome: Result<Message, RecurseError>) -> Result<
    MessageView,
    RecurseError,
> {
    match outcome {
        Ok(m) => Ok(m@),
        Err(e) => Err(e),
    }
}

fn build(chain: Vec<ZoneStep>, keys: Vec<ZoneKeys>) -> (p: Proving)
    requires
        0 < chain.len(),
        keys.len() <= chain.len(),
    ensures
        p@ == with_keys(views(chain@), views(keys@)),
        proving_valid(p@),
{
    assert(views(chain@).len() == chain.len());
    assert(views(keys@).len() == keys.len());
    if keys.len() < chain.len() {
        Proving::Gathering { chain, keys }
    } else {
        assert(views(chain@).last() == chain@[chain@.len() - 1]@);
        let leaf = chain[chain.len() - 1].zone.clone();
        Proving::Measuring { leaf, links: build_chain_links(&chain, &keys) }
    }
}

impl Recursor {
    /// Begins to validate a response to a question, as an answer (`positive`) or a
    /// denial, that came at the end of the chain.
    pub fn begin_proving(
        &mut self,
        qname: &Name,
        qtype: u16,
        chain: &Vec<ZoneStep>,
        positive: bool,
        now_millis: u64,
    ) -> (p: Proving)
        ensures
            p@ == proving_begun(*old(self), qname@, qtype, views(chain@), positive, now_millis),
            proving_valid(p@),
            final(self).validated_keys@ == if known_without_keys(
                *old(self),
                qname@,
                qtype,
                positive,
            ) is Some || chain@.len() == 0 {
                old(self).validated_keys@
            } else {
                after_fetch(
                    old(self).validated_keys@,
                    fold_case(views(chain@).last().zone),
                    trust_of(*old(self), views(chain@), now_millis) is Some,
                )
            },
            *final(self) == (Recursor { validated_keys: final(self).validated_keys, ..*old(self) }),
            final(self).same_room(*old(self)),
    {
        let known = if positive {
            self.answer_status_without_keys(qname, qtype)
        } else {
            self.denial_status_without_keys(qname)
        };
        if let Some(status) = known {
            return Proving::Over(status);
        }
        assert(views(chain@).len() == chain@.len());
        match self.chain_start(chain, now_millis) {
            ChainStart::Trusted(keys) => Proving::Trusting(keys),
            ChainStart::Known(status) => Proving::Over(status),
            ChainStart::NeedKeys => {
                let keys: Vec<ZoneKeys> = Vec::new();
                assert(views(keys@) =~= Seq::<ZoneKeysView>::empty());
                Proving::Gathering { chain: replicate_all(chain), keys }
            },
        }
    }

    /// Takes the keys that are remembered, as far as they go.
    pub fn gather_keys(&mut self, p: Proving, now_millis: u64) -> (q: Proving)
        requires
            proving_valid(p@),
        ensures
            match p@ {
                ProvingView::Gathering { chain, keys } => {
                    let g = gathered(old(self).dnskey_cache@, chain, keys, now_millis);
                    &&& q@ == with_keys(chain, g.1)
                    &&& final(self).dnskey_cache@ == g.0
                },
                _ => q@ == p@ && final(self).dnskey_cache@ == old(self).dnskey_cache@,
            },
            proving_valid(q@),
            *final(self) == (Recursor { dnskey_cache: final(self).dnskey_cache, ..*old(self) }),
            final(self).same_room(*old(self)),
    {
        match p {
            Proving::Gathering { chain, keys } => {
                let mut keys = keys;
                let ghost goal = gathered(
                    self.dnskey_cache@,
                    views(chain@),
                    views(keys@),
                    now_millis,
                );
                assert(views(chain@).len() == chain.len());
                assert(views(keys@).len() == keys.len());
                let mut missing: bool = false;
                while keys.len() < chain.len() && !missing
                    invariant
                        0 < chain.len(),
                        keys.len() <= chain.len(),
                        views(chain@).len() == chain.len(),
                        views(keys@).len() == keys.len(),
                        !missing ==> gathered(
                            self.dnskey_cache@,
                            views(chain@),
                            views(keys@),
                            now_millis,
                        ) == goal,
                        missing ==> (self.dnskey_cache@, views(keys@)) == goal,
                        *self == (Recursor { dnskey_cache: self.dnskey_cache, ..*old(self) }),
                        self.same_room(*old(self)),
                    decreases chain.len() - keys.len() + if missing {
                        0int
                    } else {
                        1int
                    },
                {
                    let key = chain[keys.len()].zone.canonical_key();
                    assert(views(chain@)[keys.len() as int] == chain@[keys.len() as int]@);
                    match self.dnskey_cached(&key, now_millis) {
                        Some(k) => {
                            proof {
                                lemma_views_push(keys@, k);
                            }
                            keys.push(k);
                        },
                        None => {
                            missing = true;
                        },
                    }
                }
                build(chain, keys)
            },
            other => other,
        }
    }

    /// The zone whose keys have to be asked for next, and its servers.
    pub fn keys_wanted(&self, p: &Proving) -> (r: Option<(Name, Vec<SocketAddr>)>)
        requires
            proving_valid(p@),
        ensures
            match p@ {
                ProvingView::Gathering { chain, keys } => {
                    &&& r matches Some(z)
                    &&& z.0@ == chain[keys.len() as int].zone
                    &&& z.1@ == chain[keys.len() as int].servers
                },
                _ => r is None,
            },
    {
        match p {
            Proving::Gathering { chain, keys } => {
                assert(views(chain@).len() == chain.len());
                assert(views(keys@).len() == keys.len());
                assert(views(chain@)[keys.len() as int] == chain@[keys.len() as int]@);
                let step = &chain[keys.len()];
                Some((step.zone.clone(), copy_servers(&step.servers)))
            },
            _ => None,
        }
    }

    /// Takes in what asking for the keys of the next zone came to.
    pub fn keys_fetched(
        &mut self,
        p: Proving,
        outcome: Result<Message, RecurseError>,
        now_secs: u32,
        now_millis: u64,
    ) -> (q: Proving)
        requires
            proving_valid(p@),
        ensures
            q@ == keys_came(p@, outcome_view(outcome)),
            proving_valid(q@),
            final(self).dnskey_cache@ == match (p@, outcome_view(outcome)) {
                (ProvingView::Gathering { chain, keys }, Ok(m)) => {
                    let zone = chain[keys.len() as int].zone;
                    let k = keys_in(m, zone);
                    if k.records.len() > 0 && k.signatures.len() > 0 {
                        old(self).keys_stored(
                            fold_case(zone),
                            k,
                            keys_ttl(m, zone, now_secs),
                            now_millis,
                        )
                    } else {
                        old(self).dnskey_cache@
                    }
                },
                _ => old(self).dnskey_cache@,
            },
            *final(self) == (Recursor { dnskey_cache: final(self).dnskey_cache, ..*old(self) }),
            final(self).same_room(*old(self)),
    {
        match p {
            Proving::Gathering { chain, keys } => match outcome {
                Err(_) => Proving::Over(
                    SecurityStatus::Bogus(crate::message::EDE_DNSSEC_BOGUS),
                ),
                Ok(m) => {
                    assert(views(chain@).len() == chain.len());
                    assert(views(keys@).len() == keys.len());
                    assert(views(chain@)[keys.len() as int] == chain@[keys.len() as int]@);
                    let k = self.absorb_dnskey_response(
                        &chain[keys.len()].zone,
                        &m,
                        now_secs,
                        now_millis,
                    );
                    let mut keys = keys;
                    proof {
                        lemma_views_push(keys@, k);
                    }
                    keys.push(k);
                    build(chain, keys)
                },
            },
            other => other,
        }
    }

    /// Takes in how many rounds of hashing each link asks for.
    pub fn rounds_measured(&self, p: Proving, rounds: &Vec<u16>) -> (q: Proving)
        requires
            proving_valid(p@),
        ensures
            q@ == rounds_known(*self, p@, rounds@),
            proving_valid(q@),
    {
        match p {
            Proving::Measuring { leaf, links } => {
                if self.chain_has_excessive_nsec3(rounds) {
                    Proving::Over(SecurityStatus::Bogus(EDE_UNSUPPORTED_NSEC3_ITERATIONS))
                } else {
                    Proving::Checking { leaf, links }
                }
            },
            other => other,
        }
    }

    /// Takes in what checking the links from the trust anchors down came to, and
    /// remembers it.
    pub fn chain_checked(
        &mut self,
        p: Proving,
        status: ChainStatus,
        now_secs: u32,
        now_millis: u64,
    ) -> (q: Proving)
        requires
            proving_valid(p@),
        ensures
            q@ == links_judged(p@, status),
            proving_valid(q@),
            final(self).validated_keys@ == match (p@, status) {
                (ProvingView::Checking { leaf, links }, ChainStatus::Secure(keys)) => old(
                    self,
                ).trust_stored(
                    fold_case(leaf),
                    ZoneTrustView::Secure(views(keys@)),
                    old(self).anchor_generation,
                    chain_validity(links, now_secs),
                    now_millis,
                ),
                (ProvingView::Checking { leaf, links }, ChainStatus::Insecure) => old(
                    self,
                ).trust_stored(
                    fold_case(leaf),
                    ZoneTrustView::Insecure,
                    old(self).anchor_generation,
                    chain_validity(links, now_secs),
                    now_millis,
                ),
                _ => old(self).validated_keys@,
            },
            *final(self) == (Recursor { validated_keys: final(self).validated_keys, ..*old(self) }),
            final(self).same_room(*old(self)),
    {
        match p {
            Proving::Checking { leaf, links } => {
                match self.conclude_chain(
                    &leaf,
                    &links,
                    ChainFinding::Checked(status),
                    now_secs,
                    now_millis,
                ) {
                    Ok(keys) => Proving::Trusting(keys),
                    Err(s) => Proving::Over(s),
                }
            },
            other => other,
        }
    }
}

impl Proving {
    /// Takes in what checking the response with the keys came to.
    pub fn response_checked(self, status: SecurityStatus) -> (q: Proving)
        ensures
            q@ == match self@ {
                ProvingView::Trusting(_) => ProvingView::Over(status),
                _ => self@,
            },
    {
        match self {
            Proving::Trusting(_) => Proving::Over(status),
            other => other,
        }
    }
}

/// Trust has one source: keys are trusted only because a chain from the trust anchors
/// down to them held, now or, for the same anchors, before.
pub proof fn law_trust_comes_from_the_anchors(
    r: Recursor,
    qname: Seq<Seq<u8>>,
    qtype: u16,
    chain: Seq<ZoneStepView>,
    positive: bool,
    now_millis: u64,
    p: ProvingView,
    outcome: Result<MessageView, RecurseError>,
    rounds: Seq<u16>,
    status: ChainStatus,
)
    requires
        !(p is Trusting),
    ensures
        proving_begun(r, qname, qtype, chain, positive, now_millis) matches ProvingView::Trusting(
            keys,
        ) ==> trust_of(r, chain, now_millis) == Some(ZoneTrustView::Secure(keys)),
        !(keys_came(p, outcome) is Trusting),
        !(rounds_known(r, p, rounds) is Trusting),
        links_judged(p, status) matches ProvingView::Trusting(keys) ==> status matches ChainStatus::Secure(
            k,
        ) && views(k@) == keys,
{
}

/// A chain that does not begin at the root proves nothing of a zone of which nothing
/// is known: a response at its end is bogus.
pub proof fn law_a_chain_begins_at_the_root(
    r: Recursor,
    qname: Seq<Seq<u8>>,
    qtype: u16,
    chain: Seq<ZoneStepView>,
    positive: bool,
    now_millis: u64,
)
    requires
        known_without_keys(r, qname, qtype, positive) is None,
        trust_of(r, chain, now_millis) is None,
        chain.len() == 0 || chain[0].zone.len() > 0,
    ensures
        proving_begun(r, qname, qtype, chain, positive, now_millis) == ProvingView::Over(bogus()),
{
}

/// How a response is proved, step by step: what is known without keys is the outcome, and
/// so is what a verdict at hand says of the zone; else the keys of all zones are gathered
/// from the root down, what they ask for is measured, the links are checked, and the
/// response is checked with the keys of the last zone.
pub proof fn law_the_steps_of_proving(
    r: Recursor,
    qname: Seq<Seq<u8>>,
    qtype: u16,
    chain: Seq<ZoneStepView>,
    positive: bool,
    now_millis: u64,
)
    ensures
        ({
            let p = proving_begun(r, qname, qtype, chain, positive, now_millis);
            match known_without_keys(r, qname, qtype, positive) {
                Some(s) => p == ProvingView::Over(s),
                None => match trust_of(r, chain, now_millis) {
                    Some(ZoneTrustView::Secure(keys)) => p == ProvingView::Trusting(keys),
                    Some(ZoneTrustView::Insecure) => p == ProvingView::Over(
                        SecurityStatus::Insecure,
                    ),
                    None => if chain.len() > 0 && chain[0].zone.len() == 0 {
                        p == (ProvingView::Gathering { chain, keys: Seq::empty() })
                    } else {
                        p == ProvingView::Over(SecurityStatus::Bogus(6))
                    },
                },
            }
        }),
{
}

/// Keys that came count for the zone they were fetched for, in its place; with the last of
/// them the links of the whole chain are there. Keys that could not be had make the
/// response bogus.
pub proof fn law_keys_are_gathered_in_order(
    chain: Seq<ZoneStepView>,
    keys: Seq<ZoneKeysView>,
    m: MessageView,
    e: RecurseError,
)
    requires
        keys.len() < chain.len(),
    ensures
        ({
            let p = ProvingView::Gathering { chain, keys };
            let own = keys_in(m, chain[keys.len() as int].zone);
            &&& keys_came(p, Err(e)) == ProvingView::Over(SecurityStatus::Bogus(6))
            &&& keys.len() + 1 < chain.len() ==> keys_came(p, Ok(m)) == (ProvingView::Gathering {
                chain,
                keys: keys.push(own),
            })
            &&& keys.len() + 1 == chain.len() ==> (keys_came(p, Ok(m))
                matches ProvingView::Measuring { leaf, links } && leaf == chain.last().zone
                && links == links_of(chain, keys.push(own)))
        }),
{
}

/// A chain that asks for more rounds of hashing than are computed is reported as such; any
/// other is checked, and its outcome is the outcome: keys to trust, a zone that is not
/// signed, or a break.
pub proof fn law_how_links_are_judged(
    r: Recursor,
    leaf: Seq<Seq<u8>>,
    links: Seq<ChainLinkView>,
    rounds: Seq<u16>,
    status: ChainStatus,
    i: int,
)
    ensures
        ({
            let p = ProvingView::Measuring { leaf, links };
            let q = ProvingView::Checking { leaf, links };
            &&& 0 <= i < rounds.len() && rounds[i] > r.nsec3_max_iterations ==> rounds_known(
                r,
                p,
                rounds,
            ) == ProvingView::Over(SecurityStatus::Bogus(27))
            &&& (forall|k: int|
                0 <= k < rounds.len() ==> #[trigger] rounds[k] <= r.nsec3_max_iterations)
                ==> rounds_known(r, p, rounds) == q
            &&& match status {
                ChainStatus::Secure(keys) => links_judged(q, status) == ProvingView::Trusting(
                    views(keys@),
                ),
                ChainStatus::Insecure => links_judged(q, status) == ProvingView::Over(
                    SecurityStatus::Insecure,
                ),
                ChainStatus::Bogus => links_judged(q, status) == ProvingView::Over(
                    SecurityStatus::Bogus(6),
                ),
            }
        }),
{
}

/// Keys at hand are used for as long as they hold, with lifetimes cut to that; what was
/// gathered before stays, and gathering stops at the first zone whose keys are not there.
pub proof fn law_keys_at_hand_are_used(
    cache: Seq<(Seq<Seq<u8>>, DnskeyEntryView)>,
    chain: Seq<ZoneStepView>,
    keys: Seq<ZoneKeysView>,
    now_millis: u64,
    i: int,
)
    requires
        crate::lru::keys_distinct(cache),
        keys.len() <= chain.len(),
    ensures
        ({
            let g = gathered(cache, chain, keys, now_millis).1;
            let e = lookup(cache, fold_case(chain[i].zone));
            let live = e is Some && e->0.lifetime.expires_at_millis > now_millis;
            &&& keys.len() <= g.len() <= chain.len()
            &&& 0 <= i < keys.len() ==> g[i] == keys[i]
            &&& keys.len() <= i < g.len() ==> live && g[i].signatures == e->0.keys.signatures
                && g[i].records == capped(
                e->0.keys.records,
                Some(e->0.lifetime.seconds_at(now_millis) as u32),
            )
            &&& i == g.len() && g.len() < chain.len() ==> !live
        }),
    decreases chain.len() - keys.len(),
{
    if keys.len() < chain.len() {
        let zone = chain[keys.len() as int].zone;
        let key = fold_case(zone);
        if let Some(k) = remembered(cache, zone, now_millis) {
            let after = crate::lru::touched(cache, key);
            crate::lru::law_touch_keeps_the_entries(cache, key);
            law_keys_at_hand_are_used(after, chain, keys.push(k), now_millis, i);
            law_keys_at_hand_are_used(
                after,
                chain,
                keys.push(k),
                now_millis,
                keys.len() as int,
            );
            assert(lookup(after, fold_case(chain[i].zone)) == lookup(
                cache,
                fold_case(chain[i].zone),
            ));
        }
    }
}

} // verus!
