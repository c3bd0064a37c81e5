//! The evidence that ties a chain of zones together: delegation signers, their
//! denials, the signatures over both, and how long all that holds.

use vstd::prelude::*;

use crate::addr::SocketAddr;
use crate::message::{
    Ds, DsView, Message, MessageView, RData, RDataView, Record, RecordView, Rrsig, RrsigView,
    CLASS_IN, TYPE_DS, TYPE_NSEC, TYPE_NSEC3,
};
use crate::name::{same_name, Name};
use crate::response::{least_ttl, least_ttl_of, record_signs, signs};
use crate::seqs::{
    any_element, any_of, lemma_filter_holds, lemma_filter_members, lemma_views_push, pick,
    replicate_all, views, Replicate,
};

verus! {

/// What is known of a response once its signatures were looked at.
#[derive(Clone, Copy, PartialEq, Eq, Structural, Debug)]
pub enum SecurityStatus {
    /// Everything is proved.
    Secure,
    /// The zone is not signed, and its parent proves that.
    Insecure,
    /// Something that should be proved is not. The number is the extended
    /// error to report.
    Bogus(u16),
}

pub open spec fn combined(a: SecurityStatus, b: SecurityStatus) -> SecurityStatus {
    if a is Bogus {
        a
    } else if b is Bogus {
        b
    } else if a is Insecure || b is Insecure {
        SecurityStatus::Insecure
    } else {
        SecurityStatus::Secure
    }
}

impl SecurityStatus {
    /// The worse of two: one broken part spoils the whole response.
    pub fn combine(self, other: Self) -> (r: Self)
        ensures
            r == combined(self, other),
    {
        match (self, other) {
            (SecurityStatus::Bogus(code), _) => SecurityStatus::Bogus(code),
            (_, SecurityStatus::Bogus(code)) => SecurityStatus::Bogus(code),
            (SecurityStatus::Insecure, _) => SecurityStatus::Insecure,
            (_, SecurityStatus::Insecure) => SecurityStatus::Insecure,
            _ => SecurityStatus::Secure,
        }
    }
}

/// Combining is associative, has `Secure` as its neutral element, and gives
/// `Secure` only for two secure parts.
pub proof fn law_combine_keeps_the_worst(a: SecurityStatus, b: SecurityStatus, c: SecurityStatus)
    ensures
        combined(combined(a, b), c) == combined(a, combined(b, c)),
        combined(a, SecurityStatus::Secure) == a,
        combined(SecurityStatus::Secure, a) == a,
        combined(a, b) is Secure <==> a is Secure && b is Secure,
        combined(a, b) is Bogus <==> a is Bogus || b is Bogus,
{
}

/// What a referral says about the signatures of the zone below.
pub struct DsEvidence {
    pub ds_records: Vec<Record>,
    pub ds_rrsigs: Vec<Rrsig>,
    pub nsec_records: Vec<Record>,
    pub nsec_rrsigs: Vec<Rrsig>,
    pub nsec3_records: Vec<Record>,
    pub nsec3_rrsigs: Vec<Rrsig>,
    pub ds: Vec<Ds>,
}

pub struct DsEvidenceView {
    pub ds_records: Seq<RecordView>,
    pub ds_rrsigs: Seq<RrsigView>,
    pub nsec_records: Seq<RecordView>,
    pub nsec_rrsigs: Seq<RrsigView>,
    pub nsec3_records: Seq<RecordView>,
    pub nsec3_rrsigs: Seq<RrsigView>,
    pub ds: Seq<DsView>,
}

impl View for DsEvidence {
    type V = DsEvidenceView;

    open spec fn view(&self) -> DsEvidenceView {
        DsEvidenceView {
            ds_records: views(self.ds_records@),
            ds_rrsigs: views(self.ds_rrsigs@),
            nsec_records: views(self.nsec_records@),
            nsec_rrsigs: views(self.nsec_rrsigs@),
            nsec3_records: views(self.nsec3_records@),
            nsec3_rrsigs: views(self.nsec3_rrsigs@),
            ds: views(self.ds@),
        }
    }
}

impl Replicate for DsEvidence {
    fn replicate(&self) -> (r: Self) {
        DsEvidence {
            ds_records: replicate_all(&self.ds_records),
            ds_rrsigs: replicate_all(&self.ds_rrsigs),
            nsec_records: replicate_all(&self.nsec_records),
            nsec_rrsigs: replicate_all(&self.nsec_rrsigs),
            nsec3_records: replicate_all(&self.nsec3_records),
            nsec3_rrsigs: replicate_all(&self.nsec3_rrsigs),
            ds: replicate_all(&self.ds),
        }
    }
}

pub open spec fn no_evidence() -> DsEvidenceView {
    DsEvidenceView {
        ds_records: Seq::empty(),
        ds_rrsigs: Seq::empty(),
        nsec_records: Seq::empty(),
        nsec_rrsigs: Seq::empty(),
        nsec3_records: Seq::empty(),
        nsec3_rrsigs: Seq::empty(),
        ds: Seq::empty(),
    }
}

impl DsEvidence {
    pub fn none() -> (r: DsEvidence)
        ensures
            r@ == no_evidence(),
    {
        let r = DsEvidence {
            ds_records: Vec::new(),
            ds_rrsigs: Vec::new(),
            nsec_records: Vec::new(),
            nsec_rrsigs: Vec::new(),
            nsec3_records: Vec::new(),
            nsec3_rrsigs: Vec::new(),
            ds: Vec::new(),
        };
        assert(r@.ds_records =~= Seq::<RecordView>::empty());
        assert(r@.ds_rrsigs =~= Seq::<RrsigView>::empty());
        assert(r@.nsec_records =~= Seq::<RecordView>::empty());
        assert(r@.nsec_rrsigs =~= Seq::<RrsigView>::empty());
        assert(r@.nsec3_records =~= Seq::<RecordView>::empty());
        assert(r@.nsec3_rrsigs =~= Seq::<RrsigView>::empty());
        assert(r@.ds =~= Seq::<DsView>::empty());
        r
    }
}

/// The signatures held by a sequence of signature records.
pub open spec fn signatures_in(s: Seq<RecordView>) -> Seq<RrsigView> {
    Seq::new(s.len(), |i: int| s[i].rdata->Rrsig_0)
}

/// An Internet-class signature record at `owner` over records of type
/// `covered`.
pub open spec fn signature_at(owner: Seq<Seq<u8>>, covered: u16) -> spec_fn(RecordView) -> bool {
    |r: RecordView| r.class == CLASS_IN && same_name(r.name, owner) && signs(r, covered)
}

/// The signatures at `owner` over records of type `type_covered`.
pub fn extract_rrsigs(records: &Vec<Record>, type_covered: u16, owner: &Name) -> (r: Vec<Rrsig>)
    ensures
        views(r@) == signatures_in(views(records@).filter(signature_at(owner@, type_covered))),
{
    let ghost p = signature_at(owner@, type_covered);
    let found = pick(
        records,
        |r: &Record| -> (b: bool)
            ensures
                b == signature_at(owner@, type_covered)(r@)
            { r.class == CLASS_IN && r.name.eq_ignore_case(owner) && record_signs(r, type_covered) },
        Ghost(p),
    );
    proof {
        lemma_filter_holds(views(records@), p);
        assert forall|k: int| 0 <= k < found.len() implies (#[trigger] found@[k])@.rdata is Rrsig by {
            assert(p(views(found@)[k]));
        }
    }
    take_signatures(&found)
}

fn take_signatures(found: &Vec<Record>) -> (r: Vec<Rrsig>)
    requires
        forall|k: int| 0 <= k < found.len() ==> (#[trigger] found@[k])@.rdata is Rrsig,
    ensures
        views(r@) == signatures_in(views(found@)),
{
    let mut out: Vec<Rrsig> = Vec::new();
    let mut i: usize = 0;
    while i < found.len()
        invariant
            i <= found.len(),
            forall|k: int| 0 <= k < found.len() ==> (#[trigger] found@[k])@.rdata is Rrsig,
            views(out@) =~= signatures_in(views(found@)).take(i as int),
        decreases found.len() - i,
    {
        let ghost before = out@;
        match &found[i].rdata {
            RData::Rrsig(s) => {
                let c = s.replicate();
                out.push(c);
                proof {
                    lemma_views_push(before, c);
                    assert(signatures_in(views(found@)).take(i + 1) =~= signatures_in(
                        views(found@),
                    ).take(i as int).push(c@));
                }
            },
            _ => {
                assert(found@[i as int]@.rdata is Rrsig);
            },
        }
        i = i + 1;
    }
    assert(views(out@) =~= signatures_in(views(found@)));
    out
}

pub open spec fn ds_at(zone: Seq<Seq<u8>>) -> spec_fn(RecordView) -> bool {
    |r: RecordView| r.class == CLASS_IN && r.rtype == TYPE_DS && same_name(r.name, zone)
}

pub open spec fn of_type(rtype: u16) -> spec_fn(RecordView) -> bool {
    |r: RecordView| r.class == CLASS_IN && r.rtype == rtype
}

/// An Internet-class record of the given type.
pub(crate) fn records_of_type(v: &Vec<Record>, rtype: u16) -> (r: Vec<Record>)
    ensures
        views(r@) == views(v@).filter(of_type(rtype)),
{
    pick(
        v,
        |r: &Record| -> (b: bool)
            ensures
                b == of_type(rtype)(r@)
            { r.class == CLASS_IN && r.rtype == rtype },
        Ghost(of_type(rtype)),
    )
}

pub open spec fn owned_by(name: Seq<Seq<u8>>) -> spec_fn(RecordView) -> bool {
    |r: RecordView| same_name(r.name, name)
}

/// An Internet-class signature over records of type `covered`, at the owner of
/// one of `records`.
pub open spec fn signature_over(records: Seq<RecordView>, covered: u16) -> spec_fn(
    RecordView,
) -> bool {
    |r: RecordView| r.class == CLASS_IN && signs(r, covered) && any_of(records, owned_by(r.name))
}

fn signatures_over(v: &Vec<Record>, records: &Vec<Record>, covered: u16) -> (r: Vec<Rrsig>)
    ensures
        views(r@) == signatures_in(
            views(v@).filter(signature_over(views(records@), covered)),
        ),
{
    let ghost p = signature_over(views(records@), covered);
    let found = pick(
        v,
        |r: &Record| -> (b: bool)
            ensures
                b == signature_over(views(records@), covered)(r@)
            {
                let owner = &r.name;
                r.class == CLASS_IN && record_signs(r, covered) && any_element(
                    records,
                    |x: &Record| -> (c: bool)
                        ensures
                            c == owned_by(owner@)(x@)
                        { x.name.eq_ignore_case(owner) },
                    Ghost(owned_by(owner@)),
                )
            },
        Ghost(p),
    );
    proof {
        lemma_filter_holds(views(v@), p);
        assert forall|k: int| 0 <= k < found.len() implies (#[trigger] found@[k])@.rdata is Rrsig by {
            assert(p(views(found@)[k]));
        }
    }
    take_signatures(&found)
}

/// Lifetimes cut down to `ttl`, where there is one.
pub open spec fn capped(s: Seq<RecordView>, ttl: Option<u32>) -> Seq<RecordView> {
    match ttl {
        None => s,
        Some(t) => Seq::new(
            s.len(),
            |i: int|
                RecordView {
                    ttl: if s[i].ttl <= t {
                        s[i].ttl
                    } else {
                        t
                    },
                    ..s[i]
                },
        ),
    }
}

pub(crate) fn cap_ttls(v: &mut Vec<Record>, ttl: Option<u32>)
    ensures
        views(final(v)@) == capped(views(old(v)@), ttl),
{
    let t: u32 = match ttl {
        None => {
            return ;
        },
        Some(t) => t,
    };
    let ghost before = v@;
    let mut i: usize = 0;
    while i < v.len()
        invariant
            i <= v.len(),
            v.len() == before.len(),
            ttl == Some(t),
            forall|k: int| 0 <= k < i ==> (#[trigger] v@[k])@ == capped(views(before), ttl)[k],
            forall|k: int| i <= k < v.len() ==> #[trigger] v@[k] == before[k],
        decreases v.len() - i,
    {
        let mut r = v[i].replicate();
        if r.ttl > t {
            r.ttl = t;
        }
        let ghost rv = r@;
        v.set(i, r);
        assert(rv == capped(views(before), ttl)[i as int]);
        i = i + 1;
    }
    assert(views(v@) =~= capped(views(before), ttl));
}

pub open spec fn holds_ds() -> spec_fn(RecordView) -> bool {
    |r: RecordView| r.rdata is Ds
}

pub open spec fn signers_in(s: Seq<RecordView>) -> Seq<DsView> {
    let found = s.filter(holds_ds());
    Seq::new(found.len(), |i: int| found[i].rdata->Ds_0)
}

fn take_signers(v: &Vec<Record>) -> (r: Vec<Ds>)
    ensures
        views(r@) == signers_in(views(v@)),
{
    let ghost p = holds_ds();
    let found = pick(
        v,
        |r: &Record| -> (b: bool)
            ensures
                b == holds_ds()(r@)
            {
                match &r.rdata {
                    RData::Ds(_) => true,
                    _ => false,
                }
            },
        Ghost(p),
    );
    proof {
        lemma_filter_holds(views(v@), p);
        assert forall|k: int| 0 <= k < found.len() implies (#[trigger] found@[k])@.rdata is Ds by {
            assert(p(views(found@)[k]));
        }
    }
    let mut out: Vec<Ds> = Vec::new();
    let mut i: usize = 0;
    while i < found.len()
        invariant
            i <= found.len(),
            views(found@) == views(v@).filter(p),
            p == holds_ds(),
            forall|k: int| 0 <= k < found.len() ==> (#[trigger] found@[k])@.rdata is Ds,
            views(out@) =~= signers_in(views(v@)).take(i as int),
        decreases found.len() - i,
    {
        let ghost before = out@;
        match &found[i].rdata {
            RData::Ds(d) => {
                let c = d.replicate();
                out.push(c);
                proof {
                    lemma_views_push(before, c);
                    assert(signers_in(views(v@)).take(i + 1) =~= signers_in(views(v@)).take(
                        i as int,
                    ).push(c@));
                }
            },
            _ => {
                assert(found@[i as int]@.rdata is Ds);
            },
        }
        i = i + 1;
    }
    assert(views(out@) =~= signers_in(views(v@)));
    out
}

/// What the authority section of a referral says about `child`: the delegation
/// signers, whose lifetime is cut down to that of their signatures, the
/// denials, and the signatures over each.
pub open spec fn ds_evidence_of(m: MessageView, child: Seq<Seq<u8>>) -> DsEvidenceView {
    let a = m.authorities;
    let ds = a.filter(ds_at(child));
    let ds_sigs = a.filter(signature_at(child, TYPE_DS));
    let nsec = a.filter(of_type(TYPE_NSEC));
    let nsec3 = a.filter(of_type(TYPE_NSEC3));
    DsEvidenceView {
        ds_records: capped(ds, least_ttl(ds_sigs)),
        ds_rrsigs: signatures_in(ds_sigs),
        nsec_records: nsec,
        nsec_rrsigs: signatures_in(a.filter(signature_over(nsec, TYPE_NSEC))),
        nsec3_records: nsec3,
        nsec3_rrsigs: signatures_in(a.filter(signature_over(nsec3, TYPE_NSEC3))),
        ds: signers_in(ds),
    }
}

pub fn extract_ds(resp: &Message, child_zone: &Name) -> (r: DsEvidence)
    ensures
        r@ == ds_evidence_of(resp@, child_zone@),
{
    let mut ds_records = pick(
        &resp.authorities,
        |r: &Record| -> (b: bool)
            ensures
                b == ds_at(child_zone@)(r@)
            { r.class == CLASS_IN && r.rtype == TYPE_DS && r.name.eq_ignore_case(child_zone) },
        Ghost(ds_at(child_zone@)),
    );
    let ghost p = signature_at(child_zone@, TYPE_DS);
    let sig_records = pick(
        &resp.authorities,
        |r: &Record| -> (b: bool)
            ensures
                b == signature_at(child_zone@, TYPE_DS)(r@)
            { r.class == CLASS_IN && r.name.eq_ignore_case(child_zone) && record_signs(r, TYPE_DS) },
        Ghost(p),
    );
    proof {
        lemma_filter_holds(resp@.authorities, p);
        assert forall|k: int|
            0 <= k < sig_records.len() implies (#[trigger] sig_records@[k])@.rdata is Rrsig by {
            assert(p(views(sig_records@)[k]));
        }
    }
    let ds = take_signers(&ds_records);
    let ttl = least_ttl_of(&sig_records);
    cap_ttls(&mut ds_records, ttl);
    let nsec_records = records_of_type(&resp.authorities, TYPE_NSEC);
    let nsec3_records = records_of_type(&resp.authorities, TYPE_NSEC3);
    DsEvidence {
        ds_rrsigs: take_signatures(&sig_records),
        nsec_rrsigs: signatures_over(&resp.authorities, &nsec_records, TYPE_NSEC),
        nsec3_rrsigs: signatures_over(&resp.authorities, &nsec3_records, TYPE_NSEC3),
        ds_records,
        nsec_records,
        nsec3_records,
        ds,
    }
}

/// One zone on the way down, with the servers that were asked and the evidence
/// that came with its delegation.
pub struct ZoneStep {
    pub zone: Name,
    pub servers: Vec<SocketAddr>,
    pub ns_names: Vec<Name>,
    pub evidence: DsEvidence,
}

pub struct ZoneStepView {
    pub zone: Seq<Seq<u8>>,
    pub servers: Seq<SocketAddr>,
    pub ns_names: Seq<Seq<Seq<u8>>>,
    pub evidence: DsEvidenceView,
}

impl View for ZoneStep {
    type V = ZoneStepView;

    open spec fn view(&self) -> ZoneStepView {
        ZoneStepView {
            zone: self.zone@,
            servers: self.servers@,
            ns_names: views(self.ns_names@),
            evidence: self.evidence@,
        }
    }
}

pub(crate) fn copy_servers(v: &Vec<SocketAddr>) -> (r: Vec<SocketAddr>)
    ensures
        r@ == v@,
{
    let mut r: Vec<SocketAddr> = Vec::new();
    let mut i: usize = 0;
    while i < v.len()
        invariant
            i <= v.len(),
            r@ =~= v@.take(i as int),
        decreases v.len() - i,
    {
        r.push(v[i]);
        i = i + 1;
    }
    assert(r@ =~= v@);
    r
}

impl Replicate for ZoneStep {
    fn replicate(&self) -> (r: Self) {
        ZoneStep {
            zone: self.zone.clone(),
            servers: copy_servers(&self.servers),
            ns_names: replicate_all(&self.ns_names),
            evidence: self.evidence.replicate(),
        }
    }
}

/// One zone of the chain as it is validated: its keys, and what its parent
/// says of the zone below it.
pub struct ChainLink {
    pub zone: Name,
    pub dnskeys: Vec<Record>,
    pub dnskey_rrsigs: Vec<Rrsig>,
    pub below: DsEvidence,
}

pub struct ChainLinkView {
    pub zone: Seq<Seq<u8>>,
    pub dnskeys: Seq<RecordView>,
    pub dnskey_rrsigs: Seq<RrsigView>,
    pub below: DsEvidenceView,
}

impl View for ChainLink {
    type V = ChainLinkView;

    open spec fn view(&self) -> ChainLinkView {
        ChainLinkView {
            zone: self.zone@,
            dnskeys: views(self.dnskeys@),
            dnskey_rrsigs: views(self.dnskey_rrsigs@),
            below: self.below@,
        }
    }
}

/// A zone's keys as they were received, with the signatures over them.
pub struct ZoneKeys {
    pub records: Vec<Record>,
    pub signatures: Vec<Rrsig>,
}

pub struct ZoneKeysView {
    pub records: Seq<RecordView>,
    pub signatures: Seq<RrsigView>,
}

impl View for ZoneKeys {
    type V = ZoneKeysView;

    open spec fn view(&self) -> ZoneKeysView {
        ZoneKeysView { records: views(self.records@), signatures: views(self.signatures@) }
    }
}

impl Replicate for ZoneKeys {
    fn replicate(&self) -> (r: Self) {
        ZoneKeys {
            records: replicate_all(&self.records),
            signatures: replicate_all(&self.signatures),
        }
    }
}

/// Each zone with its own keys and, from the step below it, what it says of
/// that zone's signers. The last one says nothing of a zone below.
pub open spec fn links_of(chain: Seq<ZoneStepView>, keys: Seq<ZoneKeysView>) -> Seq<ChainLinkView> {
    Seq::new(
        chain.len(),
        |i: int|
            ChainLinkView {
                zone: chain[i].zone,
                dnskeys: keys[i].records,
                dnskey_rrsigs: keys[i].signatures,
                below: if i + 1 < chain.len() {
                    chain[i + 1].evidence
                } else {
                    no_evidence()
                },
            },
    )
}

/// Builds the chain to validate from the zones passed on the way down and the
/// keys of each. The delegation signers of a zone come from its parent, so
/// they stand in the step of the zone itself and go to the link above it.
pub fn build_chain_links(chain: &Vec<ZoneStep>, keys: &Vec<ZoneKeys>) -> (r: Vec<ChainLink>)
    requires
        chain.len() == keys.len(),
    ensures
        views(r@) == links_of(views(chain@), views(keys@)),
{
    let mut links: Vec<ChainLink> = Vec::new();
    let mut i: usize = 0;
    while i < chain.len()
        invariant
            i <= chain.len(),
            chain.len() == keys.len(),
            views(links@) =~= links_of(views(chain@), views(keys@)).take(i as int),
        decreases chain.len() - i,
    {
        let below = if i + 1 < chain.len() {
            chain[i + 1].evidence.replicate()
        } else {
            DsEvidence::none()
        };
        let link = ChainLink {
            zone: chain[i].zone.clone(),
            dnskeys: replicate_all(&keys[i].records),
            dnskey_rrsigs: replicate_all(&keys[i].signatures),
            below,
        };
        let ghost before = links@;
        let ghost lv = link@;
        links.push(link);
        proof {
            lemma_views_push(before, links@[i as int]);
            assert(lv == links_of(views(chain@), views(keys@))[i as int]);
            assert(links_of(views(chain@), views(keys@)).take(i + 1) =~= links_of(
                views(chain@),
                views(keys@),
            ).take(i as int).push(lv));
        }
        i = i + 1;
    }
    assert(views(links@) =~= links_of(views(chain@), views(keys@)));
    links
}

/// Seconds from `now` until `expiration`, in the circular order of 32-bit
/// times; nothing where it has passed.
pub open spec fn seconds_left(expiration: u32, now: u32) -> u32 {
    let left = if expiration >= now {
        expiration - now
    } else {
        expiration - now + 0x1_0000_0000
    };
    if left < 0x8000_0000 {
        left as u32
    } else {
        0
    }
}

pub fn remaining_validity(expiration: u32, now: u32) -> (r: u32)
    ensures
        r == seconds_left(expiration, now),
{
    let left: u32 = if expiration >= now {
        expiration - now
    } else {
        (0xffff_ffff - now) + expiration + 1
    };
    if left < 0x8000_0000 {
        left
    } else {
        0
    }
}

pub open spec fn lesser(a: u32, b: u32) -> u32 {
    if a <= b {
        a
    } else {
        b
    }
}

pub open spec fn least_of_ttls(s: Seq<RecordView>, start: u32) -> u32
    decreases s.len(),
{
    if s.len() == 0 {
        start
    } else {
        lesser(least_of_ttls(s.drop_last(), start), s.last().ttl)
    }
}

pub open spec fn least_of_validity(s: Seq<RrsigView>, now: u32, start: u32) -> u32
    decreases s.len(),
{
    if s.len() == 0 {
        start
    } else {
        lesser(
            least_of_validity(s.drop_last(), now, start),
            seconds_left(s.last().expiration, now),
        )
    }
}

/// All the records that a link brings.
pub open spec fn link_records(l: ChainLinkView) -> Seq<RecordView> {
    l.dnskeys + l.below.ds_records + l.below.nsec_records + l.below.nsec3_records
}

/// All the signatures that a link brings.
pub open spec fn link_signatures(l: ChainLinkView) -> Seq<RrsigView> {
    l.dnskey_rrsigs + l.below.ds_rrsigs + l.below.nsec_rrsigs + l.below.nsec3_rrsigs
}

pub open spec fn least_of_links(s: Seq<ChainLinkView>, now: u32) -> u32
    decreases s.len(),
{
    if s.len() == 0 {
        u32::MAX
    } else {
        let before = least_of_links(s.drop_last(), now);
        least_of_validity(
            link_signatures(s.last()),
            now,
            least_of_ttls(link_records(s.last()), before),
        )
    }
}

/// How long the outcome of validating a chain may be kept: until the first of
/// its records or signatures runs out. A chain that bounds nothing is not
/// kept.
pub open spec fn chain_validity(s: Seq<ChainLinkView>, now: u32) -> u32 {
    let t = least_of_links(s, now);
    if t == u32::MAX {
        0
    } else {
        t
    }
}

proof fn lemma_least_of_ttls_add(a: Seq<RecordView>, b: Seq<RecordView>, start: u32)
    ensures
        least_of_ttls(a + b, start) == least_of_ttls(b, least_of_ttls(a, start)),
    decreases b.len(),
{
    if b.len() == 0 {
        assert(a + b =~= a);
    } else {
        assert((a + b).drop_last() =~= a + b.drop_last());
        assert((a + b).last() == b.last());
        lemma_least_of_ttls_add(a, b.drop_last(), start);
    }
}

proof fn lemma_least_of_validity_add(a: Seq<RrsigView>, b: Seq<RrsigView>, now: u32, start: u32)
    ensures
        least_of_validity(a + b, now, start) == least_of_validity(
            b,
            now,
            least_of_validity(a, now, start),
        ),
    decreases b.len(),
{
    if b.len() == 0 {
        assert(a + b =~= a);
    } else {
        assert((a + b).drop_last() =~= a + b.drop_last());
        assert((a + b).last() == b.last());
        lemma_least_of_validity_add(a, b.drop_last(), now, start);
    }
}

fn least_ttl_from(v: &Vec<Record>, start: u32) -> (r: u32)
    ensures
        r == least_of_ttls(views(v@), start),
{
    let mut r: u32 = start;
    let mut i: usize = 0;
    assert(views(v@).take(0) =~= Seq::<RecordView>::empty());
    while i < v.len()
        invariant
            i <= v.len(),
            r == least_of_ttls(views(v@).take(i as int), start),
        decreases v.len() - i,
    {
        let ttl: u32 = v[i].ttl;
        if ttl < r {
            r = ttl;
        }
        proof {
            let next = views(v@).take(i + 1);
            assert(next.drop_last() =~= views(v@).take(i as int));
            assert(next.last() == v@[i as int]@);
        }
        i = i + 1;
    }
    assert(views(v@).take(v@.len() as int) =~= views(v@));
    r
}

pub(crate) fn least_validity_from(v: &Vec<Rrsig>, now: u32, start: u32) -> (r: u32)
    ensures
        r == least_of_validity(views(v@), now, start),
{
    let mut r: u32 = start;
    let mut i: usize = 0;
    assert(views(v@).take(0) =~= Seq::<RrsigView>::empty());
    while i < v.len()
        invariant
            i <= v.len(),
            r == least_of_validity(views(v@).take(i as int), now, start),
        decreases v.len() - i,
    {
        let left: u32 = remaining_validity(v[i].expiration, now);
        if left < r {
            r = left;
        }
        proof {
            let next = views(v@).take(i + 1);
            assert(next.drop_last() =~= views(v@).take(i as int));
            assert(next.last() == v@[i as int]@);
        }
        i = i + 1;
    }
    assert(views(v@).take(v@.len() as int) =~= views(v@));
    r
}

pub fn chain_validity_ttl(links: &Vec<ChainLink>, now: u32) -> (r: u32)
    ensures
        r == chain_validity(views(links@), now),
{
    let mut ttl: u32 = u32::MAX;
    let mut i: usize = 0;
    assert(views(links@).take(0) =~= Seq::<ChainLinkView>::empty());
    while i < links.len()
        invariant
            i <= links.len(),
            ttl == least_of_links(views(links@).take(i as int), now),
        decreases links.len() - i,
    {
        let l = &links[i];
        let t1: u32 = least_ttl_from(&l.dnskeys, ttl);
        let t2: u32 = least_ttl_from(&l.below.ds_records, t1);
        let t3: u32 = least_ttl_from(&l.below.nsec_records, t2);
        let t4: u32 = least_ttl_from(&l.below.nsec3_records, t3);
        let s1: u32 = least_validity_from(&l.dnskey_rrsigs, now, t4);
        let s2: u32 = least_validity_from(&l.below.ds_rrsigs, now, s1);
        let s3: u32 = least_validity_from(&l.below.nsec_rrsigs, now, s2);
        let s4: u32 = least_validity_from(&l.below.nsec3_rrsigs, now, s3);
        proof {
            let v = l@;
            lemma_least_of_ttls_add(v.dnskeys, v.below.ds_records, ttl);
            lemma_least_of_ttls_add(v.dnskeys + v.below.ds_records, v.below.nsec_records, ttl);
            lemma_least_of_ttls_add(
                v.dnskeys + v.below.ds_records + v.below.nsec_records,
                v.below.nsec3_records,
                ttl,
            );
            lemma_least_of_validity_add(v.dnskey_rrsigs, v.below.ds_rrsigs, now, t4);
            lemma_least_of_validity_add(
                v.dnskey_rrsigs + v.below.ds_rrsigs,
                v.below.nsec_rrsigs,
                now,
                t4,
            );
            lemma_least_of_validity_add(
                v.dnskey_rrsigs + v.below.ds_rrsigs + v.below.nsec_rrsigs,
                v.below.nsec3_rrsigs,
                now,
                t4,
            );
            let next = views(links@).take(i + 1);
            assert(next.drop_last() =~= views(links@).take(i as int));
            assert(next.last() == v);
        }
        ttl = s4;
        i = i + 1;
    }
    assert(views(links@).take(links@.len() as int) =~= views(links@));
    if ttl == u32::MAX {
        0
    } else {
        ttl
    }
}

proof fn lemma_least_of_ttls_bound(s: Seq<RecordView>, start: u32)
    ensures
        least_of_ttls(s, start) <= start,
        forall|i: int| 0 <= i < s.len() ==> least_of_ttls(s, start) <= (#[trigger] s[i]).ttl,
    decreases s.len(),
{
    if s.len() > 0 {
        lemma_least_of_ttls_bound(s.drop_last(), start);
        assert forall|i: int| 0 <= i < s.len() implies least_of_ttls(s, start) <= (
        #[trigger] s[i]).ttl by {
            if i < s.len() - 1 {
                assert(s.drop_last()[i] == s[i]);
            }
        }
    }
}

pub(crate) proof fn lemma_least_of_validity_bound(s: Seq<RrsigView>, now: u32, start: u32)
    ensures
        least_of_validity(s, now, start) <= start,
        forall|i: int|
            0 <= i < s.len() ==> least_of_validity(s, now, start) <= seconds_left(
                (#[trigger] s[i]).expiration,
                now,
            ),
    decreases s.len(),
{
    if s.len() > 0 {
        lemma_least_of_validity_bound(s.drop_last(), now, start);
        assert forall|i: int| 0 <= i < s.len() implies least_of_validity(s, now, start)
            <= seconds_left((#[trigger] s[i]).expiration, now) by {
            if i < s.len() - 1 {
                assert(s.drop_last()[i] == s[i]);
            }
        }
    }
}

/// The outcome of a validation is never kept longer than any record of the
/// chain lives, nor past the end of any signature in it.
pub proof fn law_chain_outcome_never_outlives_its_evidence(s: Seq<ChainLinkView>, now: u32, k: int)
    requires
        0 <= k < s.len(),
    ensures
        forall|i: int|
            0 <= i < link_records(s[k]).len() ==> chain_validity(s, now) <= (
            #[trigger] link_records(s[k])[i]).ttl,
        forall|i: int|
            0 <= i < link_signatures(s[k]).len() ==> chain_validity(s, now) <= seconds_left(
                (#[trigger] link_signatures(s[k])[i]).expiration,
                now,
            ),
{
    lemma_least_of_links_bound(s, now, k);
}

proof fn lemma_least_of_links_bound(s: Seq<ChainLinkView>, now: u32, k: int)
    requires
        0 <= k < s.len(),
    ensures
        forall|i: int|
            0 <= i < link_records(s[k]).len() ==> least_of_links(s, now) <= (
            #[trigger] link_records(s[k])[i]).ttl,
        forall|i: int|
            0 <= i < link_signatures(s[k]).len() ==> least_of_links(s, now) <= seconds_left(
                (#[trigger] link_signatures(s[k])[i]).expiration,
                now,
            ),
    decreases s.len(),
{
    let before = least_of_links(s.drop_last(), now);
    let middle = least_of_ttls(link_records(s.last()), before);
    lemma_least_of_ttls_bound(link_records(s.last()), before);
    lemma_least_of_validity_bound(link_signatures(s.last()), now, middle);
    if k < s.len() - 1 {
        lemma_least_of_links_bound(s.drop_last(), now, k);
        assert(s.drop_last()[k] == s[k]);
    } else {
        assert(s.last() == s[k]);
    }
}

/// The names and addresses of all the servers on the way.
pub struct NsContext {
    pub names: Vec<Name>,
    pub ips: Vec<crate::addr::IpAddr>,
}

/// `n` is among the names, letter case aside.
pub open spec fn has_name(names: Seq<Seq<Seq<u8>>>, n: Seq<Seq<u8>>) -> bool {
    exists|i: int| 0 <= i < names.len() && same_name(#[trigger] names[i], n)
}

/// `names` with those of `more` that are not there yet, in order.
pub open spec fn with_names(names: Seq<Seq<Seq<u8>>>, more: Seq<Seq<Seq<u8>>>) -> Seq<
    Seq<Seq<u8>>,
>
    decreases more.len(),
{
    if more.len() == 0 {
        names
    } else {
        let before = with_names(names, more.drop_last());
        if has_name(before, more.last()) {
            before
        } else {
            before.push(more.last())
        }
    }
}

/// `ips` with the addresses of `servers` that are not there yet, in order.
pub open spec fn with_ips(
    ips: Seq<crate::addr::IpAddr>,
    servers: Seq<SocketAddr>,
) -> Seq<crate::addr::IpAddr>
    decreases servers.len(),
{
    if servers.len() == 0 {
        ips
    } else {
        let before = with_ips(ips, servers.drop_last());
        if before.contains(servers.last().ip) {
            before
        } else {
            before.push(servers.last().ip)
        }
    }
}

pub open spec fn chain_names(chain: Seq<ZoneStepView>) -> Seq<Seq<Seq<u8>>>
    decreases chain.len(),
{
    if chain.len() == 0 {
        Seq::empty()
    } else {
        with_names(chain_names(chain.drop_last()), chain.last().ns_names)
    }
}

pub open spec fn chain_ips(chain: Seq<ZoneStepView>) -> Seq<crate::addr::IpAddr>
    decreases chain.len(),
{
    if chain.len() == 0 {
        Seq::empty()
    } else {
        with_ips(chain_ips(chain.drop_last()), chain.last().servers)
    }
}

fn add_names(names: &mut Vec<Name>, more: &Vec<Name>)
    ensures
        views(final(names)@) == with_names(views(old(names)@), views(more@)),
{
    let ghost start = views(names@);
    let mut i: usize = 0;
    assert(views(more@).take(0) =~= Seq::<Seq<Seq<u8>>>::empty());
    while i < more.len()
        invariant
            i <= more.len(),
            views(names@) == with_names(start, views(more@).take(i as int)),
        decreases more.len() - i,
    {
        let mut found: bool = false;
        let mut j: usize = 0;
        while j < names.len()
            invariant
                j <= names.len(),
                i < more.len(),
                found == exists|k: int|
                    0 <= k < j && same_name(#[trigger] views(names@)[k], more@[i as int]@),
            decreases names.len() - j,
        {
            if names[j].eq_ignore_case(&more[i]) {
                assert(same_name(views(names@)[j as int], more@[i as int]@));
                found = true;
            }
            j = j + 1;
        }
        assert(found == has_name(views(names@), more@[i as int]@));
        proof {
            let next = views(more@).take(i + 1);
            assert(next.drop_last() =~= views(more@).take(i as int));
            assert(next.last() == more@[i as int]@);
        }
        if !found {
            let ghost before = names@;
            let c = more[i].clone();
            names.push(c);
            proof {
                lemma_views_push(before, c);
            }
        }
        i = i + 1;
    }
    assert(views(more@).take(more@.len() as int) =~= views(more@));
}

fn add_ips(ips: &mut Vec<crate::addr::IpAddr>, servers: &Vec<SocketAddr>)
    ensures
        final(ips)@ == with_ips(old(ips)@, servers@),
{
    let ghost start = ips@;
    let mut i: usize = 0;
    assert(servers@.take(0) =~= Seq::<SocketAddr>::empty());
    while i < servers.len()
        invariant
            i <= servers.len(),
            ips@ == with_ips(start, servers@.take(i as int)),
        decreases servers.len() - i,
    {
        let ip = servers[i].ip;
        let mut found: bool = false;
        let mut j: usize = 0;
        while j < ips.len()
            invariant
                j <= ips.len(),
                found == exists|k: int| 0 <= k < j && #[trigger] ips@[k] == ip,
            decreases ips.len() - j,
        {
            if ips[j] == ip {
                assert(ips@[j as int] == ip);
                found = true;
            }
            j = j + 1;
        }
        assert(found == ips@.contains(ip));
        proof {
            let next = servers@.take(i + 1);
            assert(next.drop_last() =~= servers@.take(i as int));
            assert(next.last() == servers@[i as int]);
        }
        if !found {
            ips.push(ip);
        }
        i = i + 1;
    }
    assert(servers@.take(servers@.len() as int) =~= servers@);
}

impl NsContext {
    /// Gathers the names and the addresses along the chain, each one once.
    pub fn from_chain(chain: &Vec<ZoneStep>) -> (r: Self)
        ensures
            views(r.names@) == chain_names(views(chain@)),
            r.ips@ == chain_ips(views(chain@)),
    {
        let mut names: Vec<Name> = Vec::new();
        let mut ips: Vec<crate::addr::IpAddr> = Vec::new();
        let mut i: usize = 0;
        assert(views(chain@).take(0) =~= Seq::<ZoneStepView>::empty());
        assert(views(names@) =~= Seq::<Seq<Seq<u8>>>::empty());
        while i < chain.len()
            invariant
                i <= chain.len(),
                views(names@) == chain_names(views(chain@).take(i as int)),
                ips@ == chain_ips(views(chain@).take(i as int)),
            decreases chain.len() - i,
        {
            add_names(&mut names, &chain[i].ns_names);
            add_ips(&mut ips, &chain[i].servers);
            proof {
                let next = views(chain@).take(i + 1);
                assert(next.drop_last() =~= views(chain@).take(i as int));
                assert(next.last() == chain@[i as int]@);
            }
            i = i + 1;
        }
        assert(views(chain@).take(chain@.len() as int) =~= views(chain@));
        NsContext { names, ips }
    }
}

/// A signature stands among the records: an Internet-class one at the name, over that
/// type.
pub open spec fn signed_in(
    records: Seq<RecordView>,
    owner: Seq<Seq<u8>>,
    covered: u16,
    s: RrsigView,
) -> bool {
    s.type_covered == covered && exists|i: int|
        0 <= i < records.len() && (#[trigger] records[i]).class == 1 && records[i].rtype == 46
            && same_name(records[i].name, owner) && records[i].rdata == RDataView::Rrsig(s)
}

/// The signatures that are held against a set are exactly those at its name over its type.
pub proof fn law_signatures_are_found(
    records: Seq<RecordView>,
    owner: Seq<Seq<u8>>,
    covered: u16,
    s: RrsigView,
)
    ensures
        signatures_in(records.filter(signature_at(owner, covered))).contains(s) <==> signed_in(
            records,
            owner,
            covered,
            s,
        ),
{
    let p = signature_at(owner, covered);
    let found = records.filter(p);
    lemma_filter_holds(records, p);
    if signatures_in(found).contains(s) {
        let j = choose|j: int| 0 <= j < found.len() && signatures_in(found)[j] == s;
        assert(p(found[j]));
        assert(records.contains(found[j]));
        let i = choose|i: int| 0 <= i < records.len() && records[i] == found[j];
        assert(records[i].rdata == RDataView::Rrsig(s));
    }
    if signed_in(records, owner, covered, s) {
        let i = choose|i: int|
            0 <= i < records.len() && (#[trigger] records[i]).class == 1 && records[i].rtype == 46
                && same_name(records[i].name, owner) && records[i].rdata == RDataView::Rrsig(s);
        assert(p(records[i]));
        assert(found.contains(records[i]));
        let j = choose|j: int| 0 <= j < found.len() && found[j] == records[i];
        assert(signatures_in(found)[j] == s);
    }
}

/// Of two statuses the worse one counts as it is: bogus before insecure before secure, and
/// of two bogus ones the first.
pub proof fn law_which_status_counts(a: SecurityStatus, b: SecurityStatus)
    ensures
        combined(a, b) == a || combined(a, b) == b,
        a is Bogus ==> combined(a, b) == a,
        b is Bogus && !(a is Bogus) ==> combined(a, b) == b,
        combined(a, b) is Insecure <==> !(a is Bogus) && !(b is Bogus) && (a is Insecure
            || b is Insecure),
{
}

/// What a referral says of signatures is taken as it stands there: the signer records of
/// the zone below, the records that deny, and the signatures over each of them. A signer
/// record is held no longer than the signature record beside it.
pub proof fn law_evidence_is_taken_as_it_stands(
    m: MessageView,
    child: Seq<Seq<u8>>,
    r: RecordView,
    s: RrsigView,
    i: int,
)
    ensures
        ({
            let e = ds_evidence_of(m, child);
            let ds = m.authorities.filter(ds_at(child));
            &&& ds.contains(r) <==> m.authorities.contains(r) && r.class == 1 && r.rtype == 43
                && same_name(r.name, child)
            &&& e.ds_records.len() == ds.len()
            &&& 0 <= i < ds.len() ==> e.ds_records[i].name == ds[i].name && e.ds_records[i].rdata
                == ds[i].rdata && e.ds_records[i].rtype == ds[i].rtype && e.ds_records[i].class
                == ds[i].class && e.ds_records[i].ttl <= ds[i].ttl
            &&& e.ds_rrsigs.contains(s) <==> signed_in(m.authorities, child, 43, s)
            &&& e.nsec_records.contains(r) <==> m.authorities.contains(r) && r.class == 1 && r.rtype
                == 47
            &&& e.nsec3_records.contains(r) <==> m.authorities.contains(r) && r.class == 1
                && r.rtype == 50
        }),
{
    lemma_filter_members(m.authorities, ds_at(child), r);
    lemma_filter_members(m.authorities, of_type(TYPE_NSEC), r);
    lemma_filter_members(m.authorities, of_type(TYPE_NSEC3), r);
    law_signatures_are_found(m.authorities, child, TYPE_DS, s);
}

/// The signatures over the records that deny are those at the name of one of them, over
/// their type.
pub proof fn law_signatures_over_denials_are_taken(
    m: MessageView,
    child: Seq<Seq<u8>>,
    s: RrsigView,
    k: int,
    j: int,
)
    requires
        0 <= k < m.authorities.len(),
        0 <= j < m.authorities.len(),
        m.authorities[k].class == 1,
        m.authorities[k].rtype == 46,
        m.authorities[k].rdata == RDataView::Rrsig(s),
        m.authorities[j].class == 1,
        same_name(m.authorities[k].name, m.authorities[j].name),
        s.type_covered == m.authorities[j].rtype,
    ensures
        m.authorities[j].rtype == 47 ==> ds_evidence_of(m, child).nsec_rrsigs.contains(s),
        m.authorities[j].rtype == 50 ==> ds_evidence_of(m, child).nsec3_rrsigs.contains(s),
{
    let a = m.authorities;
    let x = a[k];
    let y = a[j];
    if y.rtype == 47 || y.rtype == 50 {
        let set = a.filter(of_type(y.rtype));
        lemma_filter_holds(a, of_type(y.rtype));
        assert(set.contains(y));
        let l = choose|l: int| 0 <= l < set.len() && set[l] == y;
        assert(owned_by(x.name)(set[l]));
        let p = signature_over(set, y.rtype);
        lemma_filter_holds(a, p);
        assert(p(x));
        let found = a.filter(p);
        assert(found.contains(x));
        let q = choose|q: int| 0 <= q < found.len() && found[q] == x;
        assert(signatures_in(found)[q] == s);
    }
}

/// A lifetime is cut to the limit where it is longer, and left alone where it is not;
/// nothing else of the records changes.
pub proof fn law_lifetimes_are_cut_to_the_limit(s: Seq<RecordView>, ttl: u32, i: int)
    requires
        0 <= i < s.len(),
    ensures
        capped(s, None) == s,
        capped(s, Some(ttl)).len() == s.len(),
        ({
            let r = capped(s, Some(ttl))[i];
            &&& r.name == s[i].name && r.rtype == s[i].rtype && r.class == s[i].class && r.rdata
                == s[i].rdata
            &&& r.ttl <= ttl && r.ttl <= s[i].ttl && (r.ttl == ttl || r.ttl == s[i].ttl)
        }),
{
}

/// How long a signature still holds, by the clock that wraps around: adding that time to
/// the present gives its end, and one whose end has passed, by less than half the round,
/// holds no longer.
pub proof fn law_how_long_a_signature_holds(expiration: u32, now: u32)
    ensures
        ({
            let left = seconds_left(expiration, now);
            &&& left < 0x8000_0000
            &&& left > 0 ==> (now + left) % 0x1_0000_0000 == expiration
            &&& expiration == now ==> left == 0
            &&& expiration > now && expiration - now < 0x8000_0000 ==> left == expiration - now
            &&& expiration < now && now - expiration <= 0x8000_0000 ==> left == 0
            &&& expiration < now && now - expiration > 0x8000_0000 ==> left == expiration
                + 0x1_0000_0000 - now
        }),
{
}

/// Each zone of a chain goes with its own keys and with what the next zone down has been
/// told of by it; below the last there is nothing.
pub proof fn law_links_join_zones_and_keys(
    chain: Seq<ZoneStepView>,
    keys: Seq<ZoneKeysView>,
    i: int,
)
    requires
        0 <= i < chain.len(),
    ensures
        links_of(chain, keys).len() == chain.len(),
        links_of(chain, keys)[i].zone == chain[i].zone,
        links_of(chain, keys)[i].dnskeys == keys[i].records,
        links_of(chain, keys)[i].dnskey_rrsigs == keys[i].signatures,
        i + 1 < chain.len() ==> links_of(chain, keys)[i].below == chain[i + 1].evidence,
        i + 1 == chain.len() ==> links_of(chain, keys)[i].below == no_evidence(),
{
}

proof fn lemma_ttls_exact(s: Seq<RecordView>, start: u32, bound: u32)
    requires
        bound <= start,
        forall|i: int| 0 <= i < s.len() ==> bound <= (#[trigger] s[i]).ttl,
    ensures
        bound <= least_of_ttls(s, start) <= start,
    decreases s.len(),
{
    if s.len() > 0 {
        let m = s.drop_last();
        assert forall|i: int| 0 <= i < m.len() implies bound <= (#[trigger] m[i]).ttl by {
            assert(m[i] == s[i]);
        }
        lemma_ttls_exact(m, start, bound);
        assert(s.last() == s[s.len() - 1]);
    }
}

proof fn lemma_validity_exact(s: Seq<RrsigView>, now: u32, start: u32, bound: u32)
    requires
        bound <= start,
        forall|i: int|
            0 <= i < s.len() ==> bound <= seconds_left((#[trigger] s[i]).expiration, now),
    ensures
        bound <= least_of_validity(s, now, start) <= start,
    decreases s.len(),
{
    if s.len() > 0 {
        let m = s.drop_last();
        assert forall|i: int| 0 <= i < m.len() implies bound <= seconds_left(
            (#[trigger] m[i]).expiration,
            now,
        ) by {
            assert(m[i] == s[i]);
        }
        lemma_validity_exact(m, now, start, bound);
        assert(s.last() == s[s.len() - 1]);
    }
}

/// A chain's outcome is held for as long as all its evidence holds: a time that no record
/// and no signature of any link falls short of is not cut any further, unless there is no
/// evidence at all.
pub proof fn law_a_chain_is_held_as_long_as_its_evidence(
    s: Seq<ChainLinkView>,
    now: u32,
    bound: u32,
)
    requires
        forall|k: int, i: int|
            0 <= k < s.len() && 0 <= i < link_records(s[k]).len() ==> bound <= (
            #[trigger] link_records(s[k])[i]).ttl,
        forall|k: int, i: int|
            0 <= k < s.len() && 0 <= i < link_signatures(s[k]).len() ==> bound <= seconds_left(
                (#[trigger] link_signatures(s[k])[i]).expiration,
                now,
            ),
    ensures
        bound <= least_of_links(s, now),
        least_of_links(s, now) < u32::MAX ==> chain_validity(s, now) == least_of_links(s, now),
        least_of_links(s, now) == u32::MAX ==> chain_validity(s, now) == 0,
    decreases s.len(),
{
    if s.len() > 0 {
        let m = s.drop_last();
        assert forall|k: int, i: int|
            0 <= k < m.len() && 0 <= i < link_records(m[k]).len() implies bound <= (
        #[trigger] link_records(m[k])[i]).ttl by {
            assert(m[k] == s[k]);
            assert(bound <= link_records(s[k])[i].ttl);
        }
        assert forall|k: int, i: int|
            0 <= k < m.len() && 0 <= i < link_signatures(m[k]).len() implies bound
            <= seconds_left((#[trigger] link_signatures(m[k])[i]).expiration, now) by {
            assert(m[k] == s[k]);
            assert(bound <= seconds_left(link_signatures(s[k])[i].expiration, now));
        }
        law_a_chain_is_held_as_long_as_its_evidence(m, now, bound);
        let last = s.last();
        assert(last == s[s.len() - 1]);
        let before = least_of_links(m, now);
        lemma_ttls_exact(link_records(last), before, bound);
        lemma_validity_exact(
            link_signatures(last),
            now,
            least_of_ttls(link_records(last), before),
            bound,
        );
    }
}

/// The records and signatures of a link are those over the zone's keys and those that it
/// gives for the zone below, all of them.
pub proof fn law_what_a_link_rests_on(l: ChainLinkView, r: RecordView, s: RrsigView)
    ensures
        link_records(l).contains(r) <==> l.dnskeys.contains(r) || l.below.ds_records.contains(r)
            || l.below.nsec_records.contains(r) || l.below.nsec3_records.contains(r),
        link_signatures(l).contains(s) <==> l.dnskey_rrsigs.contains(s)
            || l.below.ds_rrsigs.contains(s) || l.below.nsec_rrsigs.contains(s)
            || l.below.nsec3_rrsigs.contains(s),
{
    lemma_in_parts(l.dnskeys, l.below.ds_records, r);
    lemma_in_parts(l.dnskeys + l.below.ds_records, l.below.nsec_records, r);
    lemma_in_parts(
        l.dnskeys + l.below.ds_records + l.below.nsec_records,
        l.below.nsec3_records,
        r,
    );
    lemma_in_parts(l.dnskey_rrsigs, l.below.ds_rrsigs, s);
    lemma_in_parts(l.dnskey_rrsigs + l.below.ds_rrsigs, l.below.nsec_rrsigs, s);
    lemma_in_parts(
        l.dnskey_rrsigs + l.below.ds_rrsigs + l.below.nsec_rrsigs,
        l.below.nsec3_rrsigs,
        s,
    );
}

proof fn lemma_in_parts<T>(a: Seq<T>, b: Seq<T>, x: T)
    ensures
        (a + b).contains(x) <==> a.contains(x) || b.contains(x),
{
    if a.contains(x) {
        let i = choose|i: int| 0 <= i < a.len() && a[i] == x;
        assert((a + b)[i] == x);
    }
    if b.contains(x) {
        let i = choose|i: int| 0 <= i < b.len() && b[i] == x;
        assert((a + b)[a.len() + i] == x);
    }
    if (a + b).contains(x) {
        let i = choose|i: int| 0 <= i < (a + b).len() && (a + b)[i] == x;
        if i < a.len() {
            assert(a[i] == x);
        } else {
            assert(b[i - a.len()] == x);
        }
    }
}

/// Adding names keeps those that are there, in their places, and adds each new one once:
/// none is lost and none is there twice that was not before.
pub proof fn law_names_are_gathered_once(
    names: Seq<Seq<Seq<u8>>>,
    more: Seq<Seq<Seq<u8>>>,
    n: Seq<Seq<u8>>,
)
    ensures
        has_name(with_names(names, more), n) <==> has_name(names, n) || has_name(more, n),
        names.len() <= with_names(names, more).len() <= names.len() + more.len(),
        with_names(names, more).take(names.len() as int) == names,
        (forall|i: int, j: int|
            0 <= i < j < names.len() ==> !same_name(#[trigger] names[i], #[trigger] names[j]))
            ==> forall|i: int, j: int|
            0 <= i < j < with_names(names, more).len() ==> !same_name(
                #[trigger] with_names(names, more)[i],
                #[trigger] with_names(names, more)[j],
            ),
    decreases more.len(),
{
    if more.len() > 0 {
        let rest = more.drop_last();
        let x = more.last();
        law_names_are_gathered_once(names, rest, n);
        law_names_are_gathered_once(names, rest, x);
        let before = with_names(names, rest);
        let out = with_names(names, more);
        if has_name(more, n) {
            let i = choose|i: int| 0 <= i < more.len() && same_name(#[trigger] more[i], n);
            if i < rest.len() {
                assert(same_name(rest[i], n));
            } else {
                assert(same_name(x, n));
                if has_name(before, x) {
                    let k = choose|k: int| 0 <= k < before.len() && same_name(#[trigger] before[k], x);
                    assert(same_name(before[k], n));
                    assert(has_name(before, n));
                } else {
                    assert(same_name(out[before.len() as int], n));
                }
            }
        }
        if has_name(before, n) {
            let k = choose|k: int| 0 <= k < before.len() && same_name(#[trigger] before[k], n);
            assert(same_name(out[k], n));
        }
        if has_name(rest, n) {
            let k = choose|k: int| 0 <= k < rest.len() && same_name(#[trigger] rest[k], n);
            assert(same_name(more[k], n));
        }
        if has_name(out, n) {
            let k = choose|k: int| 0 <= k < out.len() && same_name(#[trigger] out[k], n);
            if k < before.len() {
                assert(same_name(before[k], n));
            } else {
                assert(same_name(more[more.len() - 1], n));
            }
        }
        assert(out.take(names.len() as int) =~= before.take(names.len() as int));
        if forall|i: int, j: int|
            0 <= i < j < names.len() ==> !same_name(#[trigger] names[i], #[trigger] names[j]) {
            assert forall|i: int, j: int| 0 <= i < j < out.len() implies !same_name(
                #[trigger] out[i],
                #[trigger] out[j],
            ) by {
                if j < before.len() {
                    assert(!same_name(before[i], before[j]));
                } else {
                    assert(out[i] == before[i]);
                    if same_name(before[i], x) {
                        assert(has_name(before, x));
                    }
                }
            }
        }
    } else {
        assert(names.take(names.len() as int) =~= names);
        if has_name(more, n) {
            let i = choose|i: int| 0 <= i < more.len() && same_name(#[trigger] more[i], n);
        }
    }
}

/// The addresses of servers are gathered in the same way: all of them, each once.
pub proof fn law_addresses_are_gathered_once(
    ips: Seq<crate::addr::IpAddr>,
    servers: Seq<SocketAddr>,
    ip: crate::addr::IpAddr,
)
    ensures
        with_ips(ips, servers).contains(ip) <==> ips.contains(ip) || exists|i: int|
            0 <= i < servers.len() && (#[trigger] servers[i]).ip == ip,
        ips.len() <= with_ips(ips, servers).len() <= ips.len() + servers.len(),
    decreases servers.len(),
{
    if servers.len() > 0 {
        let rest = servers.drop_last();
        law_addresses_are_gathered_once(ips, rest, ip);
        let before = with_ips(ips, rest);
        let out = with_ips(ips, servers);
        if exists|i: int| 0 <= i < servers.len() && (#[trigger] servers[i]).ip == ip {
            let i = choose|i: int| 0 <= i < servers.len() && (#[trigger] servers[i]).ip == ip;
            if i < rest.len() {
                assert(rest[i].ip == ip);
            } else if !before.contains(servers.last().ip) {
                assert(out[before.len() as int] == ip);
            }
        }
        if exists|i: int| 0 <= i < rest.len() && (#[trigger] rest[i]).ip == ip {
            let i = choose|i: int| 0 <= i < rest.len() && (#[trigger] rest[i]).ip == ip;
            assert(servers[i].ip == ip);
        }
        if before.contains(ip) {
            let k = choose|k: int| 0 <= k < before.len() && before[k] == ip;
            assert(out[k] == ip);
        }
        if out.contains(ip) {
            let k = choose|k: int| 0 <= k < out.len() && out[k] == ip;
            if k < before.len() {
                assert(before[k] == ip);
            } else {
                assert(servers[servers.len() - 1].ip == ip);
            }
        }
    }
}

/// A chain has exactly the server names and addresses of its zones.
pub proof fn law_a_chain_names_all_its_servers(
    chain: Seq<ZoneStepView>,
    n: Seq<Seq<u8>>,
    ip: crate::addr::IpAddr,
)
    ensures
        has_name(chain_names(chain), n) <==> exists|k: int|
            0 <= k < chain.len() && has_name((#[trigger] chain[k]).ns_names, n),
        chain_ips(chain).contains(ip) <==> exists|k: int|
            0 <= k < chain.len() && serves_at((#[trigger] chain[k]).servers, ip),
    decreases chain.len(),
{
    if chain.len() > 0 {
        let rest = chain.drop_last();
        let last = chain.last();
        law_a_chain_names_all_its_servers(rest, n, ip);
        law_names_are_gathered_once(chain_names(rest), last.ns_names, n);
        law_addresses_are_gathered_once(chain_ips(rest), last.servers, ip);
        assert(chain[chain.len() - 1] == last);
        if exists|k: int| 0 <= k < rest.len() && has_name((#[trigger] rest[k]).ns_names, n) {
            let k = choose|k: int| 0 <= k < rest.len() && has_name((#[trigger] rest[k]).ns_names, n);
            assert(has_name(chain[k].ns_names, n));
        }
        if exists|k: int| 0 <= k < chain.len() && has_name((#[trigger] chain[k]).ns_names, n) {
            let k = choose|k: int|
                0 <= k < chain.len() && has_name((#[trigger] chain[k]).ns_names, n);
            if k < rest.len() {
                assert(has_name(rest[k].ns_names, n));
            }
        }
        if exists|k: int| 0 <= k < rest.len() && serves_at((#[trigger] rest[k]).servers, ip) {
            let k = choose|k: int| 0 <= k < rest.len() && serves_at((#[trigger] rest[k]).servers, ip);
            assert(serves_at(chain[k].servers, ip));
        }
        if exists|k: int| 0 <= k < chain.len() && serves_at((#[trigger] chain[k]).servers, ip) {
            let k = choose|k: int|
                0 <= k < chain.len() && serves_at((#[trigger] chain[k]).servers, ip);
            if k < rest.len() {
                assert(serves_at(rest[k].servers, ip));
            }
        }
    }
}

/// One of the servers has the address.
pub open spec fn serves_at(servers: Seq<SocketAddr>, ip: crate::addr::IpAddr) -> bool {
    exists|i: int| 0 <= i < servers.len() && (#[trigger] servers[i]).ip == ip
}

/// Nothing is taken for a signature over a denial but what stands there as one: a signature
/// of the Internet class over that type, at the name of a record of that type.
pub proof fn law_only_signatures_over_denials_are_taken(
    m: MessageView,
    child: Seq<Seq<u8>>,
    s: RrsigView,
)
    ensures
        ds_evidence_of(m, child).nsec_rrsigs.contains(s) ==> exists|k: int, j: int|
            0 <= k < m.authorities.len() && 0 <= j < m.authorities.len() && (
            #[trigger] m.authorities[k]).class == 1 && m.authorities[k].rdata == RDataView::Rrsig(s)
                && s.type_covered == 47 && (#[trigger] m.authorities[j]).rtype == 47 && same_name(
                m.authorities[k].name,
                m.authorities[j].name,
            ),
        ds_evidence_of(m, child).nsec3_rrsigs.contains(s) ==> exists|k: int, j: int|
            0 <= k < m.authorities.len() && 0 <= j < m.authorities.len() && (
            #[trigger] m.authorities[k]).class == 1 && m.authorities[k].rdata == RDataView::Rrsig(s)
                && s.type_covered == 50 && (#[trigger] m.authorities[j]).rtype == 50 && same_name(
                m.authorities[k].name,
                m.authorities[j].name,
            ),
{
    lemma_signature_origin(m.authorities, 47, s);
    lemma_signature_origin(m.authorities, 50, s);
}

proof fn lemma_signature_origin(a: Seq<RecordView>, t: u16, s: RrsigView)
    ensures
        signatures_in(a.filter(signature_over(a.filter(of_type(t)), t))).contains(s) ==> exists|
            k: int,
            j: int,
        |
            0 <= k < a.len() && 0 <= j < a.len() && (#[trigger] a[k]).class == 1 && a[k].rdata
                == RDataView::Rrsig(s) && s.type_covered == t && (#[trigger] a[j]).rtype == t
                && same_name(a[k].name, a[j].name),
{
    let set = a.filter(of_type(t));
    let p = signature_over(set, t);
    let found = a.filter(p);
    if signatures_in(found).contains(s) {
        let q = choose|q: int| 0 <= q < signatures_in(found).len() && signatures_in(found)[q] == s;
        let x = found[q];
        assert(found.contains(x));
        crate::seqs::lemma_filter_members(a, p, x);
        let k = choose|k: int| 0 <= k < a.len() && a[k] == x;
        assert(any_of(set, owned_by(x.name)));
        let l = choose|l: int| 0 <= l < set.len() && owned_by(x.name)(#[trigger] set[l]);
        let y = set[l];
        assert(set.contains(y));
        crate::seqs::lemma_filter_members(a, of_type(t), y);
        let j = choose|j: int| 0 <= j < a.len() && a[j] == y;
        assert(a[k].class == 1 && a[j].rtype == t);
    }
}

} // verus!
