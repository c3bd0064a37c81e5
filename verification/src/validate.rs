//! What validation decides, step by step. The steps name what has to be
//! computed over keys and hashes; what comes of that is handed back in.

use vstd::prelude::*;

use crate::addr::SocketAddr;
use crate::cache::{
    after_fetch, fetch, has_usable, DnskeyEntry, DnskeyEntryView, ValidatedKeyEntry, ZoneTrust,
    ZoneTrustView,
};
use crate::chain::{
    chain_validity, chain_validity_ttl, copy_servers, extract_rrsigs, law_signatures_are_found,
    of_type, records_of_type, signature_at, signatures_in, signed_in, ChainLink, SecurityStatus,
    ZoneStep, ZoneStepView,
};
use crate::lru::{lookup, LruMap};
use crate::message::{
    Dnskey, DnskeyView, Message, Record, RecordView, Rrsig, RrsigView, CLASS_IN,
    EDE_DNSSEC_BOGUS, EDE_UNSUPPORTED_NSEC3_ITERATIONS, RCODE_NXDOMAIN, TYPE_NSEC, TYPE_NSEC3,
    TYPE_RRSIG, TYPE_SOA,
};
use crate::name::{fold_case, same_name, within, Name};
use crate::recursor::Recursor;
use crate::response::soa_at;
use crate::seqs::{lemma_filter_members, pick, replicate_all, views, Replicate};

verus! {

pub open spec fn bogus() -> SecurityStatus {
    SecurityStatus::Bogus(EDE_DNSSEC_BOGUS)
}

// ---- how much a response may cost ----

/// How many signatures may be checked against keys for one response, however many of
/// them it carries: those over its records and those over its proofs together.
pub const SIGNATURE_CHECKS: u32 = 8;

/// A check of signatures holds only where one was allowed.
pub open spec fn holds(allowed: u32, valid: bool) -> bool {
    valid && allowed > 0
}

/// How many checks are left of those that were allowed: never more than before, and
/// fewer where a signature was found to hold.
pub open spec fn left_of(allowed: u32, valid: bool, left: u32) -> u32 {
    let most = if holds(allowed, valid) {
        (allowed - 1) as u32
    } else {
        allowed
    };
    if left <= most {
        left
    } else {
        most
    }
}

fn count_left(allowed: u32, valid: bool, left: u32) -> (r: u32)
    ensures
        r == left_of(allowed, valid, left),
{
    let most: u32 = if valid && allowed > 0 {
        allowed - 1
    } else {
        allowed
    };
    if left <= most {
        left
    } else {
        most
    }
}

// ---- positive answers ----

/// The records and signatures that a positive answer stands or falls with, and
/// the zone whose keys have to have signed them.
pub struct AnswerMaterial {
    pub rrset: Vec<Record>,
    pub signatures: Vec<Rrsig>,
    pub apex: Name,
}

/// A record of the very set that was asked for.
pub open spec fn in_rrset(qname: Seq<Seq<u8>>, qtype: u16) -> spec_fn(RecordView) -> bool {
    |r: RecordView| r.class == CLASS_IN && r.rtype == qtype && same_name(r.name, qname)
}

impl Recursor {
    /// A status that is known before any key is: the domain is exempt, or
    /// signatures were asked for, which nothing signs.
    pub open spec fn keyless_status(self, qname: Seq<Seq<u8>>, qtype: u16) -> Option<
        SecurityStatus,
    > {
        if self.insecure_by_choice(qname) || qtype == TYPE_RRSIG {
            Some(SecurityStatus::Insecure)
        } else {
            None
        }
    }

    pub fn answer_status_without_keys(&self, qname: &Name, qtype: u16) -> (r: Option<
        SecurityStatus,
    >)
        ensures
            r == self.keyless_status(qname@, qtype),
    {
        if self.is_domain_insecure(qname) {
            return Some(SecurityStatus::Insecure);
        }
        if qtype == TYPE_RRSIG {
            return Some(SecurityStatus::Insecure);
        }
        None
    }

    /// A denial needs no keys only in an exempt domain.
    pub fn denial_status_without_keys(&self, qname: &Name) -> (r: Option<SecurityStatus>)
        ensures
            r == if self.insecure_by_choice(qname@) {
                Some(SecurityStatus::Insecure)
            } else {
                None::<SecurityStatus>
            },
    {
        if self.is_domain_insecure(qname) {
            Some(SecurityStatus::Insecure)
        } else {
            None
        }
    }
}

/// Gathers what a positive answer is validated by. An answer without the
/// records, without a signature over them, or without a zone to have signed
/// them is bogus.
pub fn answer_material(
    qname: &Name,
    qtype: u16,
    answer: &Message,
    chain: &Vec<ZoneStep>,
) -> (r: Result<AnswerMaterial, SecurityStatus>)
    ensures
        ({
            let set = answer@.answers.filter(in_rrset(qname@, qtype));
            let sigs = answer@.answers.filter(signature_at(qname@, qtype));
            let complete = set.len() > 0 && sigs.len() > 0 && chain@.len() > 0;
            &&& r is Ok <==> complete
            &&& r matches Err(e) ==> e == bogus()
            &&& r matches Ok(m) ==> views(m.rrset@) == set && views(m.signatures@)
                == signatures_in(sigs) && m.apex@ == chain@[chain@.len() - 1].zone@
        }),
{
    let rrset = pick(
        &answer.answers,
        |r: &Record| -> (b: bool)
            ensures
                b == in_rrset(qname@, qtype)(r@)
            { r.class == CLASS_IN && r.rtype == qtype && r.name.eq_ignore_case(qname) },
        Ghost(in_rrset(qname@, qtype)),
    );
    assert(views(rrset@).len() == rrset.len());
    if rrset.len() == 0 {
        return Err(SecurityStatus::Bogus(EDE_DNSSEC_BOGUS));
    }
    let signatures = extract_rrsigs(&answer.answers, qtype, qname);
    assert(views(signatures@).len() == signatures.len());
    if signatures.len() == 0 {
        return Err(SecurityStatus::Bogus(EDE_DNSSEC_BOGUS));
    }
    if chain.len() == 0 {
        return Err(SecurityStatus::Bogus(EDE_DNSSEC_BOGUS));
    }
    let apex = chain[chain.len() - 1].zone.clone();
    Ok(AnswerMaterial { rrset, signatures, apex })
}

/// A signature over an answer counts where it covers the name as it stands, or where it
/// was proved that nothing closer to the name exists than the wildcard that it covers.
pub open spec fn accepted_signature(
    signature: RrsigView,
    qname: Seq<Seq<u8>>,
    expansion: Option<SecurityStatus>,
) -> bool {
    signature.labels == qname.len() || expansion == Some(SecurityStatus::Secure)
}

/// Whether a signature over an answer counts. `expansion` is what became of the check
/// that the signature called for, if it called for one. Without that check, a name that
/// exists could be hidden behind the answer of a wildcard.
pub fn signature_accepted(
    signature: &Rrsig,
    qname: &Name,
    expansion: Option<SecurityStatus>,
) -> (r: bool)
    ensures
        r == accepted_signature(signature@, qname@, expansion),
{
    signature.labels as usize == qname.num_labels() || match expansion {
        Some(SecurityStatus::Secure) => true,
        _ => false,
    }
}

/// The answer of a wildcard is believed only under a proof that was examined to its end
/// and found secure.
pub proof fn law_a_wildcard_needs_its_proof(
    signature: RrsigView,
    qname: Seq<Seq<u8>>,
    expansion: Option<SecurityStatus>,
)
    requires
        signature.labels != qname.len(),
        accepted_signature(signature, qname, expansion),
    ensures
        expansion == Some(SecurityStatus::Secure),
{
}

// ---- denials ----

/// What a proof of denial has to show of a name.
#[derive(Clone, Copy, PartialEq, Eq, Structural, Debug)]
pub enum DenialTarget {
    /// It does not exist.
    Name,
    /// It has no data of that type.
    Data(u16),
    /// Nothing closer to it than its last so many labels exists.
    Closer(usize),
}

/// What a denial has to show: a response code that denies the name stands for the whole
/// name, any other for the type that was asked for.
pub open spec fn denied_by(rcode: u16, qtype: u16) -> DenialTarget {
    if rcode == RCODE_NXDOMAIN {
        DenialTarget::Name
    } else {
        DenialTarget::Data(qtype)
    }
}

/// What has to be computed next.
pub enum ProofAction {
    /// Check these records against these signatures, with so many checks at most.
    Verify { records: Vec<Record>, signatures: Vec<Rrsig>, allowed: u32 },
    /// Choose the records that prove the target of the name in plain form.
    SelectNsec { records: Vec<Record>, qname: Name, target: DenialTarget },
    /// Find the largest number of rounds among hashed denials.
    MeasureNsec3 { records: Vec<Record> },
    /// Choose the records that prove the target of the name in hashed form.
    SelectNsec3 { records: Vec<Record>, qname: Name, target: DenialTarget },
    /// Nothing: this is the outcome.
    Verdict(SecurityStatus),
}

pub enum ProofActionView {
    Verify { records: Seq<RecordView>, signatures: Seq<RrsigView>, allowed: u32 },
    SelectNsec { records: Seq<RecordView>, qname: Seq<Seq<u8>>, target: DenialTarget },
    MeasureNsec3 { records: Seq<RecordView> },
    SelectNsec3 { records: Seq<RecordView>, qname: Seq<Seq<u8>>, target: DenialTarget },
    Verdict(SecurityStatus),
}

impl View for ProofAction {
    type V = ProofActionView;

    open spec fn view(&self) -> ProofActionView {
        match self {
            ProofAction::Verify { records, signatures, allowed } => ProofActionView::Verify {
                records: views(records@),
                signatures: views(signatures@),
                allowed: *allowed,
            },
            ProofAction::SelectNsec { records, qname, target } => ProofActionView::SelectNsec {
                records: views(records@),
                qname: qname@,
                target: *target,
            },
            ProofAction::MeasureNsec3 { records } => ProofActionView::MeasureNsec3 {
                records: views(records@),
            },
            ProofAction::SelectNsec3 { records, qname, target } => ProofActionView::SelectNsec3 {
                records: views(records@),
                qname: qname@,
                target: *target,
            },
            ProofAction::Verdict(s) => ProofActionView::Verdict(*s),
        }
    }
}

/// What came of a computation.
pub enum ProofReply {
    /// Whether one of the signatures holds, and how many checks are left.
    Verified { valid: bool, left: u32 },
    /// The chosen records, if there are any that prove the denial, and whether
    /// they rest on a span that leaves unsigned zones out.
    Proof(Option<(Vec<Record>, bool)>),
    Iterations(u16),
}

pub enum ProofReplyView {
    Verified { valid: bool, left: u32 },
    Proof(Option<(Seq<RecordView>, bool)>),
    Iterations(u16),
}

impl View for ProofReply {
    type V = ProofReplyView;

    open spec fn view(&self) -> ProofReplyView {
        match self {
            ProofReply::Verified { valid, left } => ProofReplyView::Verified {
                valid: *valid,
                left: *left,
            },
            ProofReply::Proof(p) => ProofReplyView::Proof(
                match p {
                    Some(x) => Some((views(x.0@), x.1)),
                    None => None,
                },
            ),
            ProofReply::Iterations(n) => ProofReplyView::Iterations(*n),
        }
    }
}

#[derive(Clone, Copy, PartialEq, Eq, Structural, Debug)]
pub enum ProofPhase {
    Soa,
    Measure,
    SelectNsec,
    VerifyNsec(usize),
    SelectNsec3,
    VerifyNsec3(usize),
    Over(SecurityStatus),
}

/// A denial under examination.
pub struct DenialCheck {
    pub qname: Name,
    pub target: DenialTarget,
    pub apex: Name,
    pub authorities: Vec<Record>,
    pub nxdomain: bool,
    pub max_iterations: u16,
    pub nsec3_allowed: bool,
    pub proof_records: Vec<Record>,
    pub opt_out: bool,
    /// How many signatures may still be checked.
    pub left: u32,
    pub phase: ProofPhase,
}

pub struct DenialCheckView {
    pub qname: Seq<Seq<u8>>,
    pub target: DenialTarget,
    pub apex: Seq<Seq<u8>>,
    pub authorities: Seq<RecordView>,
    pub nxdomain: bool,
    pub max_iterations: u16,
    pub nsec3_allowed: bool,
    pub proof_records: Seq<RecordView>,
    pub opt_out: bool,
    /// How many signatures may still be checked.
    pub left: u32,
    pub phase: ProofPhase,
}

impl View for DenialCheck {
    type V = DenialCheckView;

    open spec fn view(&self) -> DenialCheckView {
        DenialCheckView {
            qname: self.qname@,
            target: self.target,
            apex: self.apex@,
            authorities: views(self.authorities@),
            nxdomain: self.nxdomain,
            max_iterations: self.max_iterations,
            nsec3_allowed: self.nsec3_allowed,
            proof_records: views(self.proof_records@),
            opt_out: self.opt_out,
            left: self.left,
            phase: self.phase,
        }
    }
}

/// What a denial without a proof comes to. Where all that is there are hashed
/// denials with too many rounds, the computation was refused, and the report
/// says so.
pub open spec fn unproved(d: DenialCheckView) -> SecurityStatus {
    if !d.nsec3_allowed && d.authorities.filter(of_type(TYPE_NSEC)).len() == 0
        && d.authorities.filter(of_type(TYPE_NSEC3)).len() > 0 {
        SecurityStatus::Bogus(EDE_UNSUPPORTED_NSEC3_ITERATIONS)
    } else {
        bogus()
    }
}

/// The step after the plain form gave no proof.
pub open spec fn hashed_stage(d: DenialCheckView) -> ProofPhase {
    if d.nsec3_allowed {
        ProofPhase::SelectNsec3
    } else {
        ProofPhase::Over(unproved(d))
    }
}

pub open spec fn with_phase(d: DenialCheckView, phase: ProofPhase) -> DenialCheckView {
    DenialCheckView { phase, ..d }
}

/// The examination once signatures were checked.
pub open spec fn after_check(
    d: DenialCheckView,
    valid: bool,
    left: u32,
    phase: ProofPhase,
) -> DenialCheckView {
    DenialCheckView { left: left_of(d.left, valid, left), phase, ..d }
}

/// The examination after a reply. A reply that does not fit the step ends it
/// as bogus.
pub open spec fn replied(d: DenialCheckView, reply: ProofReplyView) -> DenialCheckView {
    match (d.phase, reply) {
        (ProofPhase::Soa, ProofReplyView::Verified { valid, left }) => after_check(
            d,
            valid,
            left,
            if holds(d.left, valid) {
                ProofPhase::Measure
            } else {
                ProofPhase::Over(bogus())
            },
        ),
        (ProofPhase::Measure, ProofReplyView::Iterations(n)) => DenialCheckView {
            nsec3_allowed: n <= d.max_iterations,
            phase: ProofPhase::SelectNsec,
            ..d
        },
        (ProofPhase::SelectNsec, ProofReplyView::Proof(p)) => if p is Some && (p->0).0.len() > 0 {
            DenialCheckView {
                proof_records: (p->0).0,
                opt_out: false,
                phase: ProofPhase::VerifyNsec(0),
                ..d
            }
        } else {
            with_phase(d, hashed_stage(d))
        },
        (ProofPhase::VerifyNsec(i), ProofReplyView::Verified { valid, left }) => after_check(
            d,
            valid,
            left,
            if !holds(d.left, valid) {
                hashed_stage(d)
            } else if i + 1 >= d.proof_records.len() {
                ProofPhase::Over(SecurityStatus::Secure)
            } else {
                ProofPhase::VerifyNsec((i + 1) as usize)
            },
        ),
        (ProofPhase::SelectNsec3, ProofReplyView::Proof(p)) => if p is Some && (p->0).0.len() > 0 {
            DenialCheckView {
                proof_records: (p->0).0,
                opt_out: (p->0).1,
                phase: ProofPhase::VerifyNsec3(0),
                ..d
            }
        } else {
            with_phase(d, ProofPhase::Over(unproved(d)))
        },
        (ProofPhase::VerifyNsec3(i), ProofReplyView::Verified { valid, left }) => after_check(
            d,
            valid,
            left,
            if !holds(d.left, valid) {
                ProofPhase::Over(unproved(d))
            } else if i + 1 >= d.proof_records.len() {
                ProofPhase::Over(
                    if d.nxdomain && d.opt_out {
                        SecurityStatus::Insecure
                    } else {
                        SecurityStatus::Secure
                    },
                )
            } else {
                ProofPhase::VerifyNsec3((i + 1) as usize)
            },
        ),
        (ProofPhase::Over(s), _) => d,
        _ => with_phase(d, ProofPhase::Over(bogus())),
    }
}

/// What the present step asks for.
pub open spec fn action_of(d: DenialCheckView) -> ProofActionView {
    match d.phase {
        ProofPhase::Soa => ProofActionView::Verify {
            records: d.authorities.filter(soa_at(d.apex)),
            signatures: signatures_in(d.authorities.filter(signature_at(d.apex, TYPE_SOA))),
            allowed: d.left,
        },
        ProofPhase::Measure => ProofActionView::MeasureNsec3 {
            records: d.authorities.filter(of_type(TYPE_NSEC3)),
        },
        ProofPhase::SelectNsec => ProofActionView::SelectNsec {
            records: d.authorities.filter(of_type(TYPE_NSEC)),
            qname: d.qname,
            target: d.target,
        },
        ProofPhase::VerifyNsec(i) => verify_one(d, i as int),
        ProofPhase::SelectNsec3 => ProofActionView::SelectNsec3 {
            records: d.authorities.filter(of_type(TYPE_NSEC3)),
            qname: d.qname,
            target: d.target,
        },
        ProofPhase::VerifyNsec3(i) => verify_one(d, i as int),
        ProofPhase::Over(s) => ProofActionView::Verdict(s),
    }
}

/// Checks one of the chosen records, each for itself.
pub open spec fn verify_one(d: DenialCheckView, i: int) -> ProofActionView {
    let r = d.proof_records[i];
    ProofActionView::Verify {
        records: seq![r],
        signatures: signatures_in(d.authorities.filter(signature_at(r.name, r.rtype))),
        allowed: d.left,
    }
}

/// The step points to one of the chosen records wherever it points to one.
pub open spec fn denial_valid(d: DenialCheckView) -> bool {
    match d.phase {
        ProofPhase::VerifyNsec(i) => i < d.proof_records.len(),
        ProofPhase::VerifyNsec3(i) => i < d.proof_records.len(),
        _ => true,
    }
}

/// A denial counts as proved only by a check that succeeded, of the last of
/// the chosen records.
pub proof fn law_only_a_verified_proof_is_secure(d: DenialCheckView, reply: ProofReplyView)
    requires
        denial_valid(d),
        !(d.phase is Over),
        replied(d, reply).phase == ProofPhase::Over(SecurityStatus::Secure),
    ensures
        reply matches ProofReplyView::Verified { valid, .. } && holds(d.left, valid),
        d.phase matches ProofPhase::VerifyNsec(i) ==> i + 1 == d.proof_records.len(),
        d.phase matches ProofPhase::VerifyNsec3(i) ==> i + 1 == d.proof_records.len(),
        d.phase is VerifyNsec || d.phase is VerifyNsec3,
{
}

/// The examination of a denial whose start of authority does not check out
/// ends as bogus at once.
pub proof fn law_unsigned_authority_ends_the_check(d: DenialCheckView)
    requires
        d.phase is Soa,
    ensures
        forall|left: u32|
            (#[trigger] replied(d, ProofReplyView::Verified { valid: false, left })).phase
                == ProofPhase::Over(bogus()),
{
}

/// The examination of whether a wildcard was allowed to answer, at its beginning. It may
/// use the checks that are left for the response.
pub open spec fn wildcard_check(
    max_iterations: u16,
    qname: Seq<Seq<u8>>,
    labels: u8,
    authorities: Seq<RecordView>,
    apex: Seq<Seq<u8>>,
    left: u32,
) -> DenialCheckView {
    DenialCheckView {
        qname,
        target: DenialTarget::Closer(labels as usize),
        apex,
        authorities,
        nxdomain: false,
        max_iterations,
        nsec3_allowed: false,
        proof_records: Seq::empty(),
        opt_out: false,
        left,
        phase: ProofPhase::Measure,
    }
}

/// Begins to examine whether a wildcard was allowed to answer for a name: it has to be
/// proved that nothing closer exists than the `labels` that the signature speaks of.
/// There is no start of authority to check in such a response.
pub fn begin_wildcard(
    max_iterations: u16,
    qname: &Name,
    labels: u8,
    authorities: &Vec<Record>,
    apex: &Name,
    left: u32,
) -> (r: DenialCheck)
    ensures
        denial_valid(r@),
        r@ == wildcard_check(max_iterations, qname@, labels, views(authorities@), apex@, left),
{
    let d = DenialCheck {
        qname: qname.clone(),
        target: DenialTarget::Closer(labels as usize),
        apex: apex.clone(),
        authorities: replicate_all(authorities),
        nxdomain: false,
        max_iterations,
        nsec3_allowed: false,
        proof_records: Vec::new(),
        opt_out: false,
        left,
        phase: ProofPhase::Measure,
    };
    assert(d@.proof_records =~= Seq::<RecordView>::empty());
    d
}

impl Recursor {
    /// Begins to examine a denial. It needs the start of authority of the zone
    /// that answered, exactly one.
    pub fn begin_denial(
        &self,
        qname: &Name,
        qtype: u16,
        out: &Message,
        chain: &Vec<ZoneStep>,
    ) -> (r: Result<DenialCheck, SecurityStatus>)
        ensures
            ({
                let apex = chain@[chain@.len() - 1].zone@;
                let ready = chain@.len() > 0 && out@.authorities.filter(soa_at(apex)).len() == 1;
                &&& r is Ok <==> ready
                &&& r matches Err(e) ==> e == bogus()
                &&& r matches Ok(d) ==> denial_valid(d@) && d@ == (DenialCheckView {
                    qname: qname@,
                    target: denied_by(out@.header.rcode, qtype),
                    apex,
                    authorities: out@.authorities,
                    nxdomain: out@.header.rcode == RCODE_NXDOMAIN,
                    max_iterations: self.nsec3_max_iterations,
                    nsec3_allowed: false,
                    proof_records: Seq::empty(),
                    opt_out: false,
                    left: SIGNATURE_CHECKS,
                    phase: ProofPhase::Soa,
                })
            }),
    {
        if chain.len() == 0 {
            return Err(SecurityStatus::Bogus(EDE_DNSSEC_BOGUS));
        }
        let apex = chain[chain.len() - 1].zone.clone();
        let soa = soa_records(&out.authorities, &apex);
        assert(views(soa@).len() == soa.len());
        if soa.len() != 1 {
            return Err(SecurityStatus::Bogus(EDE_DNSSEC_BOGUS));
        }
        let nxdomain: bool = out.header.rcode == RCODE_NXDOMAIN;
        let d = DenialCheck {
            qname: qname.clone(),
            target: if nxdomain {
                DenialTarget::Name
            } else {
                DenialTarget::Data(qtype)
            },
            apex,
            authorities: replicate_all(&out.authorities),
            nxdomain,
            max_iterations: self.nsec3_max_iterations,
            nsec3_allowed: false,
            proof_records: Vec::new(),
            opt_out: false,
            left: SIGNATURE_CHECKS,
            phase: ProofPhase::Soa,
        };
        assert(d@.proof_records =~= Seq::<RecordView>::empty());
        Ok(d)
    }
}

fn soa_records(v: &Vec<Record>, apex: &Name) -> (r: Vec<Record>)
    ensures
        views(r@) == views(v@).filter(soa_at(apex@)),
{
    pick(
        v,
        |r: &Record| -> (b: bool)
            ensures
                b == soa_at(apex@)(r@)
            { r.rtype == TYPE_SOA && r.class == CLASS_IN && r.name.eq_ignore_case(apex) },
        Ghost(soa_at(apex@)),
    )
}

impl DenialCheck {
    /// What has to be computed next.
    pub fn action(&self) -> (r: ProofAction)
        requires
            denial_valid(self@),
        ensures
            r@ == action_of(self@),
    {
        match self.phase {
            ProofPhase::Soa => ProofAction::Verify {
                records: soa_records(&self.authorities, &self.apex),
                signatures: extract_rrsigs(&self.authorities, TYPE_SOA, &self.apex),
                allowed: self.left,
            },
            ProofPhase::Measure => ProofAction::MeasureNsec3 {
                records: records_of_type(&self.authorities, TYPE_NSEC3),
            },
            ProofPhase::SelectNsec => ProofAction::SelectNsec {
                records: records_of_type(&self.authorities, TYPE_NSEC),
                qname: self.qname.clone(),
                target: self.target,
            },
            ProofPhase::VerifyNsec(i) => self.check_one(i),
            ProofPhase::SelectNsec3 => ProofAction::SelectNsec3 {
                records: records_of_type(&self.authorities, TYPE_NSEC3),
                qname: self.qname.clone(),
                target: self.target,
            },
            ProofPhase::VerifyNsec3(i) => self.check_one(i),
            ProofPhase::Over(s) => ProofAction::Verdict(s),
        }
    }

    fn check_one(&self, i: usize) -> (r: ProofAction)
        requires
            i < self.proof_records.len(),
        ensures
            r@ == verify_one(self@, i as int),
    {
        let one = &self.proof_records[i];
        let mut records: Vec<Record> = Vec::new();
        records.push(one.replicate());
        assert(views(records@) =~= seq![one@]);
        ProofAction::Verify {
            records,
            signatures: extract_rrsigs(&self.authorities, one.rtype, &one.name),
            allowed: self.left,
        }
    }

    fn unproved_status(&self) -> (r: SecurityStatus)
        ensures
            r == unproved(self@),
    {
        let nsec = records_of_type(&self.authorities, TYPE_NSEC);
        let nsec3 = records_of_type(&self.authorities, TYPE_NSEC3);
        assert(views(nsec@).len() == nsec.len());
        assert(views(nsec3@).len() == nsec3.len());
        if !self.nsec3_allowed && nsec.len() == 0 && nsec3.len() > 0 {
            SecurityStatus::Bogus(EDE_UNSUPPORTED_NSEC3_ITERATIONS)
        } else {
            SecurityStatus::Bogus(EDE_DNSSEC_BOGUS)
        }
    }

    fn to_hashed_stage(&self) -> (r: ProofPhase)
        ensures
            r == hashed_stage(self@),
    {
        if self.nsec3_allowed {
            ProofPhase::SelectNsec3
        } else {
            ProofPhase::Over(self.unproved_status())
        }
    }

    /// Counts what a check of signatures took, and says whether it holds.
    fn spend(&mut self, valid: bool, left: u32) -> (ok: bool)
        ensures
            ok == holds(old(self).left, valid),
            final(self)@ == (DenialCheckView {
                left: left_of(old(self).left, valid, left),
                ..old(self)@
            }),
    {
        let ok: bool = valid && self.left > 0;
        self.left = count_left(self.left, valid, left);
        ok
    }

    /// Takes in what came of the computation.
    pub fn reply(&mut self, reply: ProofReply)
        requires
            denial_valid(old(self)@),
        ensures
            final(self)@ == replied(old(self)@, reply@),
            denial_valid(final(self)@),
    {
        let next: ProofPhase = match (self.phase, reply) {
            (ProofPhase::Soa, ProofReply::Verified { valid, left }) => {
                let ok: bool = self.spend(valid, left);
                if ok {
                    ProofPhase::Measure
                } else {
                    ProofPhase::Over(SecurityStatus::Bogus(EDE_DNSSEC_BOGUS))
                }
            },
            (ProofPhase::Measure, ProofReply::Iterations(n)) => {
                self.nsec3_allowed = n <= self.max_iterations;
                ProofPhase::SelectNsec
            },
            (ProofPhase::SelectNsec, ProofReply::Proof(p)) => match p {
                Some((records, _)) => {
                    assert(views(records@).len() == records.len());
                    if records.len() > 0 {
                        self.proof_records = records;
                        self.opt_out = false;
                        ProofPhase::VerifyNsec(0)
                    } else {
                        self.to_hashed_stage()
                    }
                },
                None => self.to_hashed_stage(),
            },
            (ProofPhase::VerifyNsec(i), ProofReply::Verified { valid, left }) => {
                let ok: bool = self.spend(valid, left);
                assert(self@.proof_records.len() == self.proof_records.len());
                if !ok {
                    self.to_hashed_stage()
                } else if i + 1 >= self.proof_records.len() {
                    ProofPhase::Over(SecurityStatus::Secure)
                } else {
                    ProofPhase::VerifyNsec(i + 1)
                }
            },
            (ProofPhase::SelectNsec3, ProofReply::Proof(p)) => match p {
                Some((records, opt_out)) => {
                    assert(views(records@).len() == records.len());
                    if records.len() > 0 {
                        self.proof_records = records;
                        self.opt_out = opt_out;
                        ProofPhase::VerifyNsec3(0)
                    } else {
                        ProofPhase::Over(self.unproved_status())
                    }
                },
                None => ProofPhase::Over(self.unproved_status()),
            },
            (ProofPhase::VerifyNsec3(i), ProofReply::Verified { valid, left }) => {
                let ok: bool = self.spend(valid, left);
                assert(self@.proof_records.len() == self.proof_records.len());
                if !ok {
                    ProofPhase::Over(self.unproved_status())
                } else if i + 1 >= self.proof_records.len() {
                    ProofPhase::Over(
                        if self.nxdomain && self.opt_out {
                            SecurityStatus::Insecure
                        } else {
                            SecurityStatus::Secure
                        },
                    )
                } else {
                    ProofPhase::VerifyNsec3(i + 1)
                }
            },
            (ProofPhase::Over(s), _) => ProofPhase::Over(s),
            _ => ProofPhase::Over(SecurityStatus::Bogus(EDE_DNSSEC_BOGUS)),
        };
        self.phase = next;
    }
}

/// The examination after all these replies, one after the other.
pub open spec fn replied_all(d: DenialCheckView, replies: Seq<ProofReplyView>) -> DenialCheckView
    decreases replies.len(),
{
    if replies.len() == 0 {
        d
    } else {
        replied(replied_all(d, replies.drop_last()), replies.last())
    }
}

/// All checks of one denial, of its start of authority and of each of its proofs, draw on
/// one count: it never rises, and where nothing is left of it, nothing is proved any more.
pub proof fn law_a_denial_has_one_count_of_checks(
    d: DenialCheckView,
    replies: Seq<ProofReplyView>,
)
    ensures
        ({
            let e = replied_all(d, replies);
            &&& e.left <= d.left
            &&& d.left == 0 && !(d.phase is Over) ==> (e.phase matches ProofPhase::Over(s)
                ==> s is Bogus)
        }),
    decreases replies.len(),
{
    if replies.len() > 0 {
        law_a_denial_has_one_count_of_checks(d, replies.drop_last());
    }
}

// ---- an answer under examination ----

/// What is examined of an answer.
pub enum AnswerPhase {
    /// The signature whose turn it is.
    Signature,
    /// That signature holds, and it has to be seen whether its wildcard was allowed to
    /// answer.
    Expansion(DenialCheck),
    Over(SecurityStatus),
}

pub enum AnswerPhaseView {
    Signature,
    Expansion(DenialCheckView),
    Over(SecurityStatus),
}

impl View for AnswerPhase {
    type V = AnswerPhaseView;

    open spec fn view(&self) -> AnswerPhaseView {
        match self {
            AnswerPhase::Signature => AnswerPhaseView::Signature,
            AnswerPhase::Expansion(d) => AnswerPhaseView::Expansion(d@),
            AnswerPhase::Over(s) => AnswerPhaseView::Over(*s),
        }
    }
}

/// A positive answer under examination.
pub struct AnswerCheck {
    pub qname: Name,
    pub rrset: Vec<Record>,
    pub signatures: Vec<Rrsig>,
    pub apex: Name,
    pub authorities: Vec<Record>,
    pub max_iterations: u16,
    /// The signature whose turn it is.
    pub at: usize,
    /// How many signatures may still be checked.
    pub left: u32,
    pub phase: AnswerPhase,
}

pub struct AnswerCheckView {
    pub qname: Seq<Seq<u8>>,
    pub rrset: Seq<RecordView>,
    pub signatures: Seq<RrsigView>,
    pub apex: Seq<Seq<u8>>,
    pub authorities: Seq<RecordView>,
    pub max_iterations: u16,
    pub at: int,
    pub left: u32,
    pub phase: AnswerPhaseView,
}

impl View for AnswerCheck {
    type V = AnswerCheckView;

    open spec fn view(&self) -> AnswerCheckView {
        AnswerCheckView {
            qname: self.qname@,
            rrset: views(self.rrset@),
            signatures: views(self.signatures@),
            apex: self.apex@,
            authorities: views(self.authorities@),
            max_iterations: self.max_iterations,
            at: self.at as int,
            left: self.left,
            phase: self.phase@,
        }
    }
}

/// There is a signature whose turn it is, and an examination within the examination is
/// not over and has the same count of checks.
pub open spec fn answer_valid(a: AnswerCheckView) -> bool {
    &&& 0 <= a.at < a.signatures.len()
    &&& a.phase matches AnswerPhaseView::Expansion(d) ==> {
        &&& denial_valid(d)
        &&& !(d.phase is Over)
        &&& d.left == a.left
        &&& !accepted_signature(a.signatures[a.at], a.qname, None)
    }
}

/// The examination goes on to the next signature; without one the answer is bogus.
pub open spec fn at_next_signature(a: AnswerCheckView, left: u32) -> AnswerCheckView {
    if a.at + 1 < a.signatures.len() {
        AnswerCheckView { at: a.at + 1, left, phase: AnswerPhaseView::Signature, ..a }
    } else {
        AnswerCheckView { left, phase: AnswerPhaseView::Over(bogus()), ..a }
    }
}

/// The examination of an answer after a reply. A reply that does not fit ends it as
/// bogus.
pub open spec fn answer_replied(a: AnswerCheckView, reply: ProofReplyView) -> AnswerCheckView {
    let signature = a.signatures[a.at];
    match a.phase {
        AnswerPhaseView::Signature => match reply {
            ProofReplyView::Verified { valid, left } => {
                let l = left_of(a.left, valid, left);
                if !holds(a.left, valid) {
                    at_next_signature(a, l)
                } else if accepted_signature(signature, a.qname, None) {
                    AnswerCheckView {
                        left: l,
                        phase: AnswerPhaseView::Over(SecurityStatus::Secure),
                        ..a
                    }
                } else {
                    let d = wildcard_check(
                        a.max_iterations,
                        a.qname,
                        signature.labels,
                        a.authorities,
                        a.apex,
                        l,
                    );
                    AnswerCheckView { left: l, phase: AnswerPhaseView::Expansion(d), ..a }
                }
            },
            _ => AnswerCheckView { phase: AnswerPhaseView::Over(bogus()), ..a },
        },
        AnswerPhaseView::Expansion(d) => {
            let e = replied(d, reply);
            match e.phase {
                ProofPhase::Over(s) => if accepted_signature(signature, a.qname, Some(s)) {
                    AnswerCheckView {
                        left: e.left,
                        phase: AnswerPhaseView::Over(SecurityStatus::Secure),
                        ..a
                    }
                } else {
                    at_next_signature(a, e.left)
                },
                _ => AnswerCheckView { left: e.left, phase: AnswerPhaseView::Expansion(e), ..a },
            }
        },
        AnswerPhaseView::Over(_) => a,
    }
}

/// What the present step of the examination of an answer asks for.
pub open spec fn answer_action_of(a: AnswerCheckView) -> ProofActionView {
    match a.phase {
        AnswerPhaseView::Signature => ProofActionView::Verify {
            records: a.rrset,
            signatures: seq![a.signatures[a.at]],
            allowed: a.left,
        },
        AnswerPhaseView::Expansion(d) => action_of(d),
        AnswerPhaseView::Over(s) => ProofActionView::Verdict(s),
    }
}

impl Recursor {
    /// Begins to examine a positive answer. One without the records, without a signature
    /// over them, or without a zone to have signed them is bogus.
    pub fn begin_answer(
        &self,
        qname: &Name,
        qtype: u16,
        answer: &Message,
        chain: &Vec<ZoneStep>,
    ) -> (r: Result<AnswerCheck, SecurityStatus>)
        ensures
            ({
                let set = answer@.answers.filter(in_rrset(qname@, qtype));
                let sigs = answer@.answers.filter(signature_at(qname@, qtype));
                let complete = set.len() > 0 && sigs.len() > 0 && chain@.len() > 0;
                &&& r is Ok <==> complete
                &&& r matches Err(e) ==> e == bogus()
                &&& r matches Ok(a) ==> answer_valid(a@) && a@ == (AnswerCheckView {
                    qname: qname@,
                    rrset: set,
                    signatures: signatures_in(sigs),
                    apex: chain@[chain@.len() - 1].zone@,
                    authorities: answer@.authorities,
                    max_iterations: self.nsec3_max_iterations,
                    at: 0,
                    left: SIGNATURE_CHECKS,
                    phase: AnswerPhaseView::Signature,
                })
            }),
    {
        let AnswerMaterial { rrset, signatures, apex } = match answer_material(
            qname,
            qtype,
            answer,
            chain,
        ) {
            Ok(m) => m,
            Err(e) => {
                return Err(e);
            },
        };
        assert(views(signatures@).len() == signatures@.len());
        Ok(
            AnswerCheck {
                qname: qname.clone(),
                rrset,
                signatures,
                apex,
                authorities: replicate_all(&answer.authorities),
                max_iterations: self.nsec3_max_iterations,
                at: 0,
                left: SIGNATURE_CHECKS,
                phase: AnswerPhase::Signature,
            },
        )
    }
}

impl AnswerCheck {
    /// What has to be computed next.
    pub fn action(&self) -> (r: ProofAction)
        requires
            answer_valid(self@),
        ensures
            r@ == answer_action_of(self@),
    {
        assert(views(self.signatures@).len() == self.signatures@.len());
        match &self.phase {
            AnswerPhase::Signature => {
                let mut signatures: Vec<Rrsig> = Vec::new();
                signatures.push(self.signatures[self.at].replicate());
                assert(views(signatures@) =~= seq![self@.signatures[self@.at]]);
                ProofAction::Verify {
                    records: replicate_all(&self.rrset),
                    signatures,
                    allowed: self.left,
                }
            },
            AnswerPhase::Expansion(d) => d.action(),
            AnswerPhase::Over(s) => ProofAction::Verdict(*s),
        }
    }

    /// Goes on to the next signature.
    fn skip(&mut self)
        requires
            0 <= old(self)@.at < old(self)@.signatures.len(),
        ensures
            final(self)@ == at_next_signature(old(self)@, old(self)@.left),
    {
        assert(views(self.signatures@).len() == self.signatures@.len());
        if self.at < self.signatures.len() - 1 {
            self.at = self.at + 1;
            self.phase = AnswerPhase::Signature;
        } else {
            self.phase = AnswerPhase::Over(SecurityStatus::Bogus(EDE_DNSSEC_BOGUS));
        }
    }

    /// Takes in what came of the check of the signature whose turn it is.
    fn checked(&mut self, valid: bool, left: u32)
        requires
            answer_valid(old(self)@),
            old(self).phase is Signature,
        ensures
            final(self)@ == answer_replied(old(self)@, ProofReplyView::Verified { valid, left }),
    {
        assert(views(self.signatures@).len() == self.signatures@.len());
        let ok: bool = valid && self.left > 0;
        self.left = count_left(self.left, valid, left);
        if !ok {
            self.skip();
        } else if signature_accepted(&self.signatures[self.at], &self.qname, None) {
            self.phase = AnswerPhase::Over(SecurityStatus::Secure);
        } else {
            let d = begin_wildcard(
                self.max_iterations,
                &self.qname,
                self.signatures[self.at].labels,
                &self.authorities,
                &self.apex,
                self.left,
            );
            self.phase = AnswerPhase::Expansion(d);
        }
    }

    /// Takes in where the examination of the wildcard has come to.
    fn expanded(&mut self, d: DenialCheck)
        requires
            0 <= old(self)@.at < old(self)@.signatures.len(),
        ensures
            final(self)@ == ({
                let a = old(self)@;
                match d@.phase {
                    ProofPhase::Over(s) => if accepted_signature(
                        a.signatures[a.at],
                        a.qname,
                        Some(s),
                    ) {
                        AnswerCheckView {
                            left: d@.left,
                            phase: AnswerPhaseView::Over(SecurityStatus::Secure),
                            ..a
                        }
                    } else {
                        at_next_signature(a, d@.left)
                    },
                    _ => AnswerCheckView {
                        left: d@.left,
                        phase: AnswerPhaseView::Expansion(d@),
                        ..a
                    },
                }
            }),
    {
        assert(views(self.signatures@).len() == self.signatures@.len());
        self.left = d.left;
        match d.phase {
            ProofPhase::Over(s) => {
                if signature_accepted(&self.signatures[self.at], &self.qname, Some(s)) {
                    self.phase = AnswerPhase::Over(SecurityStatus::Secure);
                } else {
                    self.skip();
                }
            },
            _ => {
                self.phase = AnswerPhase::Expansion(d);
            },
        }
    }

    /// Takes in what came of the computation.
    pub fn reply(&mut self, reply: ProofReply)
        requires
            answer_valid(old(self)@),
        ensures
            final(self)@ == answer_replied(old(self)@, reply@),
            answer_valid(final(self)@),
    {
        let mut phase = AnswerPhase::Signature;
        std::mem::swap(&mut phase, &mut self.phase);
        match phase {
            AnswerPhase::Signature => match reply {
                ProofReply::Verified { valid, left } => {
                    self.checked(valid, left);
                },
                _ => {
                    self.phase = AnswerPhase::Over(SecurityStatus::Bogus(EDE_DNSSEC_BOGUS));
                },
            },
            AnswerPhase::Expansion(d) => {
                let mut d = d;
                d.reply(reply);
                self.expanded(d);
            },
            AnswerPhase::Over(s) => {
                self.phase = AnswerPhase::Over(s);
            },
        }
    }
}

/// The examination of an answer after all these replies, one after the other.
pub open spec fn answer_replied_all(
    a: AnswerCheckView,
    replies: Seq<ProofReplyView>,
) -> AnswerCheckView
    decreases replies.len(),
{
    if replies.len() == 0 {
        a
    } else {
        answer_replied(answer_replied_all(a, replies.drop_last()), replies.last())
    }
}

/// All checks of one answer, of each of its signatures and of every proof that a wildcard
/// among them calls for, draw on one count: it never rises, and where nothing is left of
/// it, the answer can only be bogus.
pub proof fn law_an_answer_has_one_count_of_checks(
    a: AnswerCheckView,
    replies: Seq<ProofReplyView>,
)
    requires
        answer_valid(a),
    ensures
        ({
            let b = answer_replied_all(a, replies);
            &&& answer_valid(b)
            &&& b.left <= a.left
            &&& a.left == 0 && !(a.phase is Over) ==> (b.phase matches AnswerPhaseView::Over(s)
                ==> s is Bogus)
        }),
    decreases replies.len(),
{
    if replies.len() > 0 {
        law_an_answer_has_one_count_of_checks(a, replies.drop_last());
        let m = answer_replied_all(a, replies.drop_last());
        if let AnswerPhaseView::Expansion(d) = m.phase {
            let one = seq![replies.last()];
            law_a_denial_has_one_count_of_checks(d, one);
            assert(one.drop_last() =~= Seq::<ProofReplyView>::empty());
            assert(replied_all(d, one.drop_last()) == d);
            assert(replied_all(d, one) == replied(d, replies.last()));
        }
    }
}

/// An answer counts as secure only by a signature that was found to hold, and that covers
/// the name as it stands or a wildcard whose proof was found secure.
pub proof fn law_only_an_accepted_signature_is_secure(a: AnswerCheckView, reply: ProofReplyView)
    requires
        answer_valid(a),
        !(a.phase is Over),
        answer_replied(a, reply).phase == AnswerPhaseView::Over(SecurityStatus::Secure),
    ensures
        a.left > 0,
        match a.phase {
            AnswerPhaseView::Signature => {
                &&& reply matches ProofReplyView::Verified { valid, .. }
                &&& valid
                &&& a.signatures[a.at].labels == a.qname.len()
            },
            AnswerPhaseView::Expansion(d) => {
                replied(d, reply).phase == ProofPhase::Over(SecurityStatus::Secure)
            },
            AnswerPhaseView::Over(_) => false,
        },
{
}

// ---- the chain of keys ----

/// Where the validation of a chain can start.
pub enum ChainStart {
    /// The keys of the last zone are known.
    Trusted(Vec<Dnskey>),
    /// The outcome is known.
    Known(SecurityStatus),
    /// The keys of every zone of the chain are needed.
    NeedKeys,
}

pub enum ChainStartView {
    Trusted(Seq<DnskeyView>),
    Known(SecurityStatus),
    NeedKeys,
}

impl View for ChainStart {
    type V = ChainStartView;

    open spec fn view(&self) -> ChainStartView {
        match self {
            ChainStart::Trusted(k) => ChainStartView::Trusted(views(k@)),
            ChainStart::Known(s) => ChainStartView::Known(*s),
            ChainStart::NeedKeys => ChainStartView::NeedKeys,
        }
    }
}

/// What can be said of an answer without asking for keys.
pub enum TerminalCheck {
    /// The outcome is known.
    Known(SecurityStatus),
    /// It is checked with these keys of the last zone.
    Trusted(Vec<Dnskey>),
    /// The keys of every zone are known, and the chain is checked with them.
    CheckChain,
    /// Keys are missing, so nothing is said.
    Deferred,
}

pub enum TerminalCheckView {
    Known(SecurityStatus),
    Trusted(Seq<DnskeyView>),
    CheckChain,
    Deferred,
}

impl View for TerminalCheck {
    type V = TerminalCheckView;

    open spec fn view(&self) -> TerminalCheckView {
        match self {
            TerminalCheck::Known(s) => TerminalCheckView::Known(*s),
            TerminalCheck::Trusted(k) => TerminalCheckView::Trusted(views(k@)),
            TerminalCheck::CheckChain => TerminalCheckView::CheckChain,
            TerminalCheck::Deferred => TerminalCheckView::Deferred,
        }
    }
}

/// What needs no keys: what an answer says without them, and a denial whose name is
/// not to be validated.
pub open spec fn known_without_keys(
    r: Recursor,
    qname: Seq<Seq<u8>>,
    qtype: u16,
    positive: bool,
) -> Option<SecurityStatus> {
    if positive {
        r.keyless_status(qname, qtype)
    } else if r.insecure_by_choice(qname) {
        Some(SecurityStatus::Insecure)
    } else {
        None
    }
}

/// What the keys at hand allow.
pub open spec fn with_keys_at_hand(
    r: Recursor,
    chain: Seq<ZoneStepView>,
    now_millis: u64,
) -> TerminalCheckView {
    match trust_of(r, chain, now_millis) {
        Some(ZoneTrustView::Secure(keys)) => TerminalCheckView::Trusted(keys),
        Some(ZoneTrustView::Insecure) => TerminalCheckView::Known(SecurityStatus::Insecure),
        None => if chain.len() == 0 || chain[0].zone.len() > 0 || missing_from(
            r.dnskey_cache@,
            chain,
            Seq::empty(),
            0,
            now_millis,
        ).1 is Some {
            TerminalCheckView::Deferred
        } else {
            TerminalCheckView::CheckChain
        },
    }
}

/// What can be said of an answer without asking for keys: what needs no keys, then
/// what the keys at hand allow.
pub open spec fn terminal_check_of(
    r: Recursor,
    qname: Seq<Seq<u8>>,
    qtype: u16,
    chain: Seq<ZoneStepView>,
    positive: bool,
    now_millis: u64,
) -> TerminalCheckView {
    match known_without_keys(r, qname, qtype, positive) {
        Some(status) => TerminalCheckView::Known(status),
        None => with_keys_at_hand(r, chain, now_millis),
    }
}

/// What checking a chain from the trust anchors down came to.
pub enum ChainStatus {
    Secure(Vec<Dnskey>),
    Insecure,
    Bogus,
}

/// What is known of a chain before it is concluded.
pub enum ChainFinding {
    /// The keys of some zone could not be had.
    Unavailable,
    /// Some zone asks for more rounds of hashing than are computed here.
    Costly,
    /// The chain was checked.
    Checked(ChainStatus),
}

/// What is known of the last zone of the chain.
pub open spec fn trust_of(r: Recursor, chain: Seq<ZoneStepView>, now_millis: u64) -> Option<
    ZoneTrustView,
> {
    if chain.len() == 0 {
        None
    } else {
        let key = fold_case(chain.last().zone);
        if has_usable::<Seq<Seq<u8>>, ValidatedKeyEntry>(
            r.validated_keys@,
            key,
            now_millis,
            r.anchor_generation,
        ) {
            Some(lookup(r.validated_keys@, key)->0.trust)
        } else {
            None
        }
    }
}

/// Where to start. A chain that does not begin at the root proves nothing.
pub open spec fn chain_start_of(
    r: Recursor,
    chain: Seq<ZoneStepView>,
    now_millis: u64,
) -> ChainStartView {
    match trust_of(r, chain, now_millis) {
        Some(ZoneTrustView::Secure(keys)) => ChainStartView::Trusted(keys),
        Some(ZoneTrustView::Insecure) => ChainStartView::Known(SecurityStatus::Insecure),
        None => if chain.len() == 0 || chain[0].zone.len() > 0 {
            ChainStartView::Known(bogus())
        } else {
            ChainStartView::NeedKeys
        },
    }
}

/// The cache of keys after the search for a zone whose keys are missing, and
/// the place of that zone.
pub open spec fn missing_from(
    cache: Seq<(Seq<Seq<u8>>, DnskeyEntryView)>,
    chain: Seq<ZoneStepView>,
    skip: Seq<Seq<Seq<u8>>>,
    i: int,
    now_millis: u64,
) -> (Seq<(Seq<Seq<u8>>, DnskeyEntryView)>, Option<int>)
    decreases chain.len() - i,
{
    if i >= chain.len() {
        (cache, None)
    } else {
        let key = fold_case(chain[i].zone);
        if skip.contains(key) {
            missing_from(cache, chain, skip, i + 1, now_millis)
        } else {
            let live = has_usable::<Seq<Seq<u8>>, DnskeyEntry>(cache, key, now_millis, 0);
            let next = after_fetch(cache, key, live);
            if live {
                missing_from(next, chain, skip, i + 1, now_millis)
            } else {
                (next, Some(i))
            }
        }
    }
}

fn key_in(keys: &Vec<Name>, key: &Name) -> (r: bool)
    ensures
        r == views(keys@).contains(key@),
{
    let mut i: usize = 0;
    while i < keys.len()
        invariant
            i <= keys.len(),
            forall|k: int| 0 <= k < i ==> #[trigger] views(keys@)[k] != key@,
        decreases keys.len() - i,
    {
        if keys[i].eq_exact(key) {
            assert(views(keys@)[i as int] == key@);
            return true;
        }
        assert(views(keys@)[i as int] != key@);
        i = i + 1;
    }
    false
}

/// The place of the first zone, from `from` on, whose keys are missing.
fn find_missing(
    cache: &mut LruMap<Name, DnskeyEntry>,
    chain: &Vec<ZoneStep>,
    skip: &Vec<Name>,
    from: usize,
    now_millis: u64,
) -> (r: Option<usize>)
    ensures
        ({
            let t = missing_from(
                old(cache)@,
                views(chain@),
                views(skip@),
                from as int,
                now_millis,
            );
            &&& final(cache)@ == t.0
            &&& r is Some <==> t.1 is Some
            &&& r matches Some(i) ==> t.1 == Some(i as int) && i < chain@.len()
        }),
        final(cache).capacity() == old(cache).capacity(),
    decreases chain.len() - from,
{
    if from >= chain.len() {
        return None;
    }
    let key = chain[from].zone.canonical_key();
    assert(views(chain@)[from as int] == chain@[from as int]@);
    if !key_in(skip, &key) {
        if !fetch(cache, &key, now_millis, 0) {
            return Some(from);
        }
    }
    find_missing(cache, chain, skip, from + 1, now_millis)
}

impl Recursor {
    /// What is known of the last zone of the chain.
    pub fn cached_chain_trust(&mut self, chain: &Vec<ZoneStep>, now_millis: u64) -> (r: Option<
        ZoneTrust,
    >)
        ensures
            r is Some <==> trust_of(*old(self), views(chain@), now_millis) is Some,
            r matches Some(t) ==> trust_of(*old(self), views(chain@), now_millis) == Some(t@),
            final(self).validated_keys@ == if chain@.len() == 0 {
                old(self).validated_keys@
            } else {
                after_fetch(
                    old(self).validated_keys@,
                    fold_case(chain@[chain@.len() - 1].zone@),
                    r is Some,
                )
            },
            *final(self) == (Recursor { validated_keys: final(self).validated_keys, ..*old(self) }),
            final(self).same_room(*old(self)),
    {
        if chain.len() == 0 {
            return None;
        }
        assert(views(chain@).last() == chain@[chain@.len() - 1]@);
        let key = chain[chain.len() - 1].zone.canonical_key();
        let generation: u64 = self.anchor_generation;
        self.validated_keys_cached(&key, generation, now_millis)
    }

    /// The first zone of the chain, besides those in `skip`, whose keys are not
    /// known, and its servers.
    pub fn first_chain_zone_missing_dnskey(
        &mut self,
        chain: &Vec<ZoneStep>,
        skip: &Vec<Name>,
        now_millis: u64,
    ) -> (r: Option<(Name, Vec<SocketAddr>)>)
        ensures
            ({
                let t = missing_from(
                    old(self).dnskey_cache@,
                    views(chain@),
                    views(skip@),
                    0,
                    now_millis,
                );
                &&& final(self).dnskey_cache@ == t.0
                &&& r is Some <==> t.1 is Some
                &&& r matches Some(z) ==> 0 <= t.1->0 < chain@.len() && z.0@ == views(
                    chain@,
                )[t.1->0].zone && z.1@ == views(chain@)[t.1->0].servers
            }),
            *final(self) == (Recursor { dnskey_cache: final(self).dnskey_cache, ..*old(self) }),
            final(self).same_room(*old(self)),
    {
        match find_missing(&mut self.dnskey_cache, chain, skip, 0, now_millis) {
            Some(i) => {
                assert(views(chain@)[i as int] == chain@[i as int]@);
                Some((chain[i].zone.clone(), copy_servers(&chain[i].servers)))
            },
            None => None,
        }
    }

    /// Where the validation of the chain can start.
    pub fn chain_start(&mut self, chain: &Vec<ZoneStep>, now_millis: u64) -> (r: ChainStart)
        ensures
            r@ == chain_start_of(*old(self), views(chain@), now_millis),
            final(self).validated_keys@ == if chain@.len() == 0 {
                old(self).validated_keys@
            } else {
                after_fetch(
                    old(self).validated_keys@,
                    fold_case(chain@[chain@.len() - 1].zone@),
                    trust_of(*old(self), views(chain@), now_millis) is Some,
                )
            },
            *final(self) == (Recursor { validated_keys: final(self).validated_keys, ..*old(self) }),
            final(self).same_room(*old(self)),
    {
        match self.cached_chain_trust(chain, now_millis) {
            Some(ZoneTrust::Secure(keys)) => ChainStart::Trusted(keys),
            Some(ZoneTrust::Insecure) => ChainStart::Known(SecurityStatus::Insecure),
            None => {
                if chain.len() == 0 {
                    return ChainStart::Known(SecurityStatus::Bogus(EDE_DNSSEC_BOGUS));
                }
                assert(views(chain@)[0] == chain@[0]@);
                if !chain[0].zone.is_root() {
                    return ChainStart::Known(SecurityStatus::Bogus(EDE_DNSSEC_BOGUS));
                }
                ChainStart::NeedKeys
            },
        }
    }

    fn check_with_keys_at_hand(&mut self, chain: &Vec<ZoneStep>, now_millis: u64) -> (r:
        TerminalCheck)
        ensures
            r@ == with_keys_at_hand(*old(self), views(chain@), now_millis),
            final(self).validated_keys@ == if chain@.len() == 0 {
                old(self).validated_keys@
            } else {
                after_fetch(
                    old(self).validated_keys@,
                    fold_case(views(chain@).last().zone),
                    trust_of(*old(self), views(chain@), now_millis) is Some,
                )
            },
            final(self).dnskey_cache@ == if trust_of(*old(self), views(chain@), now_millis) is Some || chain@.len() == 0
                || views(chain@)[0].zone.len() > 0 {
                old(self).dnskey_cache@
            } else {
                missing_from(
                    old(self).dnskey_cache@,
                    views(chain@),
                    Seq::empty(),
                    0,
                    now_millis,
                ).0
            },
            *final(self) == (Recursor {
                dnskey_cache: final(self).dnskey_cache,
                validated_keys: final(self).validated_keys,
                ..*old(self)
            }),
            final(self).same_room(*old(self)),
    {
        match self.cached_chain_trust(chain, now_millis) {
            Some(ZoneTrust::Secure(keys)) => TerminalCheck::Trusted(keys),
            Some(ZoneTrust::Insecure) => TerminalCheck::Known(SecurityStatus::Insecure),
            None => {
                if chain.len() == 0 {
                    return TerminalCheck::Deferred;
                }
                assert(views(chain@)[0] == chain@[0]@);
                if !chain[0].zone.is_root() {
                    return TerminalCheck::Deferred;
                }
                let skip: Vec<Name> = Vec::new();
                assert(views(skip@) =~= Seq::empty());
                match self.first_chain_zone_missing_dnskey(chain, &skip, now_millis) {
                    Some(_) => TerminalCheck::Deferred,
                    None => TerminalCheck::CheckChain,
                }
            },
        }
    }

    /// What can be said of an answer without asking for keys.
    pub fn terminal_check(
        &mut self,
        qname: &Name,
        qtype: u16,
        chain: &Vec<ZoneStep>,
        positive: bool,
        now_millis: u64,
    ) -> (r: TerminalCheck)
        ensures
            r@ == terminal_check_of(
                *old(self),
                qname@,
                qtype,
                views(chain@),
                positive,
                now_millis,
            ),
            final(self).validated_keys@ == if known_without_keys(*old(self), qname@, qtype, positive) is Some || chain@.len()
                == 0 {
                old(self).validated_keys@
            } else {
                after_fetch(
                    old(self).validated_keys@,
                    fold_case(views(chain@).last().zone),
                    trust_of(*old(self), views(chain@), now_millis) is Some,
                )
            },
            final(self).dnskey_cache@ == if known_without_keys(*old(self), qname@, qtype, positive) is Some || trust_of(
                *old(self),
                views(chain@),
                now_millis,
            ) is Some || chain@.len() == 0 || views(chain@)[0].zone.len() > 0 {
                old(self).dnskey_cache@
            } else {
                missing_from(
                    old(self).dnskey_cache@,
                    views(chain@),
                    Seq::empty(),
                    0,
                    now_millis,
                ).0
            },
            *final(self) == (Recursor {
                dnskey_cache: final(self).dnskey_cache,
                validated_keys: final(self).validated_keys,
                ..*old(self)
            }),
            final(self).same_room(*old(self)),
    {
        let known = if positive {
            self.answer_status_without_keys(qname, qtype)
        } else if self.is_domain_insecure(qname) {
            Some(SecurityStatus::Insecure)
        } else {
            None
        };
        match known {
            Some(status) => TerminalCheck::Known(status),
            None => self.check_with_keys_at_hand(chain, now_millis),
        }
    }

    /// Whether any zone asks for more rounds of hashing than the settings
    /// allow. `iterations` holds the largest number of each link.
    pub fn chain_has_excessive_nsec3(&self, iterations: &Vec<u16>) -> (r: bool)
        ensures
            r == exists|i: int|
                0 <= i < iterations@.len() && #[trigger] iterations@[i] > self.nsec3_max_iterations,
    {
        let mut i: usize = 0;
        while i < iterations.len()
            invariant
                i <= iterations.len(),
                forall|k: int|
                    0 <= k < i ==> #[trigger] iterations@[k] <= self.nsec3_max_iterations,
            decreases iterations.len() - i,
        {
            if iterations[i] > self.nsec3_max_iterations {
                assert(iterations@[i as int] > self.nsec3_max_iterations);
                return true;
            }
            i = i + 1;
        }
        false
    }

    /// Concludes the validation of a chain: the keys of its last zone, or the
    /// status that stands in their place. What a complete check found out is
    /// remembered as long as all its evidence holds.
    pub fn conclude_chain(
        &mut self,
        leaf: &Name,
        links: &Vec<ChainLink>,
        finding: ChainFinding,
        now_secs: u32,
        now_millis: u64,
    ) -> (r: Result<Vec<Dnskey>, SecurityStatus>)
        ensures
            match finding {
                ChainFinding::Unavailable => {
                    &&& r == Err::<Vec<Dnskey>, SecurityStatus>(bogus())
                    &&& final(self).validated_keys@ == old(self).validated_keys@
                },
                ChainFinding::Costly => {
                    &&& r == Err::<Vec<Dnskey>, SecurityStatus>(
                        SecurityStatus::Bogus(EDE_UNSUPPORTED_NSEC3_ITERATIONS),
                    )
                    &&& final(self).validated_keys@ == old(self).validated_keys@
                },
                ChainFinding::Checked(ChainStatus::Bogus) => {
                    &&& r == Err::<Vec<Dnskey>, SecurityStatus>(bogus())
                    &&& final(self).validated_keys@ == old(self).validated_keys@
                },
                ChainFinding::Checked(ChainStatus::Insecure) => {
                    &&& r == Err::<Vec<Dnskey>, SecurityStatus>(SecurityStatus::Insecure)
                    &&& final(self).validated_keys@ == old(self).trust_stored(
                        fold_case(leaf@),
                        ZoneTrustView::Insecure,
                        old(self).anchor_generation,
                        chain_validity(views(links@), now_secs),
                        now_millis,
                    )
                },
                ChainFinding::Checked(ChainStatus::Secure(keys)) => {
                    &&& r matches Ok(k) && views(k@) == views(keys@)
                    &&& final(self).validated_keys@ == old(self).trust_stored(
                        fold_case(leaf@),
                        ZoneTrustView::Secure(views(keys@)),
                        old(self).anchor_generation,
                        chain_validity(views(links@), now_secs),
                        now_millis,
                    )
                },
            },
            *final(self) == (Recursor { validated_keys: final(self).validated_keys, ..*old(self) }),
            final(self).same_room(*old(self)),
    {
        let status: ChainStatus = match finding {
            ChainFinding::Unavailable => {
                return Err(SecurityStatus::Bogus(EDE_DNSSEC_BOGUS));
            },
            ChainFinding::Costly => {
                return Err(SecurityStatus::Bogus(EDE_UNSUPPORTED_NSEC3_ITERATIONS));
            },
            ChainFinding::Checked(s) => s,
        };
        let generation: u64 = self.anchor_generation;
        match status {
            ChainStatus::Bogus => Err(SecurityStatus::Bogus(EDE_DNSSEC_BOGUS)),
            ChainStatus::Insecure => {
                let ttl: u32 = chain_validity_ttl(links, now_secs);
                self.validated_keys_store(
                    leaf.canonical_key(),
                    ZoneTrust::Insecure,
                    generation,
                    ttl,
                    now_millis,
                );
                Err(SecurityStatus::Insecure)
            },
            ChainStatus::Secure(keys) => {
                let ttl: u32 = chain_validity_ttl(links, now_secs);
                let kept = replicate_all(&keys);
                self.validated_keys_store(
                    leaf.canonical_key(),
                    ZoneTrust::Secure(kept),
                    generation,
                    ttl,
                    now_millis,
                );
                Ok(keys)
            },
        }
    }
}

/// New trust anchors put an end to what was found out under the old ones.
pub proof fn law_anchor_rotation_ends_trust(
    before: Recursor,
    after: Recursor,
    chain: Seq<ZoneStepView>,
    now_millis: u64,
)
    requires
        before.anchor_generation != after.anchor_generation,
        after.validated_keys@ == before.validated_keys@,
        trust_of(before, chain, now_millis) is Some,
    ensures
        trust_of(after, chain, now_millis) is None,
{
}

// ---- what holds of every examination ----

/// What a check leaves is what it says it leaves, unless that is more than there can be:
/// never more than was allowed, and less than that where a signature was found to hold.
pub proof fn law_a_check_takes_what_it_says(allowed: u32, valid: bool, left: u32)
    ensures
        left_of(allowed, valid, left) <= left,
        left_of(allowed, valid, left) <= allowed,
        valid && allowed > 0 ==> left_of(allowed, valid, left) < allowed,
        left < allowed ==> left_of(allowed, valid, left) == left,
        !valid && left <= allowed ==> left_of(allowed, valid, left) == left,
        left >= allowed && allowed > 0 && valid ==> left_of(allowed, valid, left) == allowed - 1,
        holds(allowed, valid) <==> valid && allowed != 0,
        SIGNATURE_CHECKS == 8,
{
}

/// Which way an examination goes. The start of authority comes first, and once it holds,
/// plain proofs come before hashed ones; hashed ones are looked at exactly where their
/// rounds are within the limit. What the examination is about never changes.
pub proof fn law_the_steps_of_a_denial(d: DenialCheckView, reply: ProofReplyView)
    requires
        denial_valid(d),
    ensures
        ({
            let e = replied(d, reply);
            let plain = d.authorities.filter(of_type(TYPE_NSEC)).len();
            let hashed = d.authorities.filter(of_type(TYPE_NSEC3)).len();
            let unproved = if !d.nsec3_allowed && plain == 0 && hashed > 0 {
                SecurityStatus::Bogus(27)
            } else {
                SecurityStatus::Bogus(6)
            };
            let no_plain_proof = if d.nsec3_allowed {
                ProofPhase::SelectNsec3
            } else {
                ProofPhase::Over(unproved)
            };
            &&& e.qname == d.qname && e.target == d.target && e.apex == d.apex
            &&& e.authorities == d.authorities && e.nxdomain == d.nxdomain
            &&& e.max_iterations == d.max_iterations
            &&& match (d.phase, reply) {
                (ProofPhase::Soa, ProofReplyView::Verified { valid, .. }) => if valid && d.left
                    > 0 {
                    e.phase == ProofPhase::Measure
                } else {
                    e.phase == ProofPhase::Over(SecurityStatus::Bogus(6))
                },
                (ProofPhase::Measure, ProofReplyView::Iterations(n)) => e.phase
                    == ProofPhase::SelectNsec && (e.nsec3_allowed <==> n <= d.max_iterations)
                    && e.left == d.left,
                (ProofPhase::SelectNsec, ProofReplyView::Proof(None)) => e.phase == no_plain_proof,
                (ProofPhase::SelectNsec, ProofReplyView::Proof(Some(p))) => if p.0.len() == 0 {
                    e.phase == no_plain_proof
                } else {
                    e.phase == ProofPhase::VerifyNsec(0) && e.proof_records == p.0
                },
                (ProofPhase::VerifyNsec(i), ProofReplyView::Verified { valid, .. }) => if !valid
                    || d.left == 0 {
                    e.phase == no_plain_proof
                } else if i + 1 < d.proof_records.len() {
                    e.phase == ProofPhase::VerifyNsec((i + 1) as usize)
                } else {
                    e.phase == ProofPhase::Over(SecurityStatus::Secure)
                },
                (ProofPhase::SelectNsec3, ProofReplyView::Proof(None)) => e.phase
                    == ProofPhase::Over(unproved),
                (ProofPhase::SelectNsec3, ProofReplyView::Proof(Some(p))) => if p.0.len() == 0 {
                    e.phase == ProofPhase::Over(unproved)
                } else {
                    e.phase == ProofPhase::VerifyNsec3(0) && e.proof_records == p.0 && e.opt_out
                        == p.1
                },
                (ProofPhase::VerifyNsec3(i), ProofReplyView::Verified { valid, .. }) => if !valid
                    || d.left == 0 {
                    e.phase == ProofPhase::Over(unproved)
                } else if i + 1 < d.proof_records.len() {
                    e.phase == ProofPhase::VerifyNsec3((i + 1) as usize) && e.opt_out == d.opt_out
                } else if d.nxdomain && d.opt_out {
                    e.phase == ProofPhase::Over(SecurityStatus::Insecure)
                } else {
                    e.phase == ProofPhase::Over(SecurityStatus::Secure)
                },
                (ProofPhase::Over(s), _) => e == d,
                _ => e.phase == ProofPhase::Over(SecurityStatus::Bogus(6)),
            }
        }),
{
}

/// The replies that bring a proof and then find each of its records to be signed.
pub open spec fn proved_by(records: Seq<RecordView>, opt_out: bool, left: Seq<u32>) -> Seq<
    ProofReplyView,
> {
    seq![ProofReplyView::Proof(Some((records, opt_out)))] + Seq::new(
        records.len(),
        |i: int| ProofReplyView::Verified { valid: true, left: left[i] },
    )
}

proof fn lemma_records_verified(
    d: DenialCheckView,
    records: Seq<RecordView>,
    opt_out: bool,
    left: Seq<u32>,
    k: int,
)
    requires
        d.phase is SelectNsec || d.phase is SelectNsec3,
        0 < records.len() <= usize::MAX,
        left.len() == records.len(),
        d.left >= records.len(),
        forall|i: int| 0 <= i < left.len() ==> (#[trigger] left[i]) >= records.len() - 1 - i,
        0 <= k < records.len(),
    ensures
        ({
            let e = replied_all(d, proved_by(records, opt_out, left).take(k + 1));
            &&& e.left >= records.len() - k
            &&& e.proof_records == records && e.nxdomain == d.nxdomain
            &&& d.phase is SelectNsec ==> e.phase == ProofPhase::VerifyNsec(k as usize)
            &&& d.phase is SelectNsec3 ==> e.phase == ProofPhase::VerifyNsec3(k as usize)
                && e.opt_out == opt_out
        }),
    decreases k,
{
    let all = proved_by(records, opt_out, left);
    let now = all.take(k + 1);
    assert(now.drop_last() =~= all.take(k));
    assert(now.last() == all[k]);
    if k == 0 {
        assert(all.take(0) =~= Seq::<ProofReplyView>::empty());
        assert(replied_all(d, all.take(0)) == d);
    } else {
        lemma_records_verified(d, records, opt_out, left, k - 1);
        assert(all[k] == (ProofReplyView::Verified { valid: true, left: left[k - 1] }));
        assert(left[k - 1] >= records.len() - k);
    }
}

/// A denial that is proved is believed. Once a proof is chosen, plain or hashed, and each
/// of its records is found to be signed while checks are left, the denial is secure; it
/// is insecure exactly where it denies the name by a hashed proof that leaves unsigned
/// zones out.
pub proof fn law_a_proved_denial_is_believed(
    d: DenialCheckView,
    records: Seq<RecordView>,
    opt_out: bool,
    left: Seq<u32>,
)
    requires
        d.phase is SelectNsec || d.phase is SelectNsec3,
        0 < records.len() <= usize::MAX,
        left.len() == records.len(),
        d.left >= records.len(),
        forall|i: int| 0 <= i < left.len() ==> (#[trigger] left[i]) >= records.len() - 1 - i,
    ensures
        replied_all(d, proved_by(records, opt_out, left)).phase == ProofPhase::Over(
            if d.phase is SelectNsec3 && d.nxdomain && opt_out {
                SecurityStatus::Insecure
            } else {
                SecurityStatus::Secure
            },
        ),
{
    let all = proved_by(records, opt_out, left);
    let n = records.len();
    lemma_records_verified(d, records, opt_out, left, n - 1);
    assert(all.len() == n + 1);
    assert(all.drop_last() =~= all.take(n as int));
    assert(all.last() == (ProofReplyView::Verified { valid: true, left: left[n - 1] }));
}

/// A denial is bogus only for a reason: a check that fails or was no longer allowed, a
/// proof that is missing or empty, or a reply that does not fit the step.
pub proof fn law_a_denial_is_bogus_only_for_a_reason(d: DenialCheckView, reply: ProofReplyView)
    requires
        denial_valid(d),
        !(d.phase is Over),
        replied(d, reply).phase matches ProofPhase::Over(s) && s is Bogus,
    ensures
        match reply {
            ProofReplyView::Verified { valid, .. } => !valid || d.left == 0 || !(d.phase is Soa
                || d.phase is VerifyNsec || d.phase is VerifyNsec3),
            ProofReplyView::Proof(p) => p is None || (p->0).0.len() == 0 || !(d.phase is SelectNsec
                || d.phase is SelectNsec3),
            ProofReplyView::Iterations(_) => !(d.phase is Measure),
        },
{
}

/// What has to be checked or chosen at each step of a denial: first the start of authority
/// of the zone with the signatures over it, then the records that deny, and each of the
/// chosen ones with the signatures over its own type at its own name.
pub proof fn law_what_a_denial_asks_for(d: DenialCheckView, r: RecordView, s: RrsigView)
    requires
        denial_valid(d),
    ensures
        match d.phase {
            ProofPhase::Soa => action_of(d) matches ProofActionView::Verify {
                records,
                signatures,
                allowed,
            } && allowed == d.left && (records.contains(r) <==> d.authorities.contains(r)
                && r.class == 1 && r.rtype == 6 && same_name(r.name, d.apex)) && (
            signatures.contains(s) <==> signed_in(d.authorities, d.apex, 6, s)),
            ProofPhase::Measure => action_of(d) matches ProofActionView::MeasureNsec3 { records }
                && (records.contains(r) <==> d.authorities.contains(r) && r.class == 1 && r.rtype
                == 50),
            ProofPhase::SelectNsec => action_of(d) matches ProofActionView::SelectNsec {
                records,
                qname,
                target,
            } && qname == d.qname && target == d.target && (records.contains(r)
                <==> d.authorities.contains(r) && r.class == 1 && r.rtype == 47),
            ProofPhase::SelectNsec3 => action_of(d) matches ProofActionView::SelectNsec3 {
                records,
                qname,
                target,
            } && qname == d.qname && target == d.target && (records.contains(r)
                <==> d.authorities.contains(r) && r.class == 1 && r.rtype == 50),
            ProofPhase::VerifyNsec(i) => asks_for_one(d, i as int, s),
            ProofPhase::VerifyNsec3(i) => asks_for_one(d, i as int, s),
            ProofPhase::Over(v) => action_of(d) == ProofActionView::Verdict(v),
        },
{
    lemma_filter_members(d.authorities, soa_at(d.apex), r);
    lemma_filter_members(d.authorities, of_type(TYPE_NSEC), r);
    lemma_filter_members(d.authorities, of_type(TYPE_NSEC3), r);
    law_signatures_are_found(d.authorities, d.apex, TYPE_SOA, s);
    match d.phase {
        ProofPhase::VerifyNsec(i) => {
            let one = d.proof_records[i as int];
            law_signatures_are_found(d.authorities, one.name, one.rtype, s);
        },
        ProofPhase::VerifyNsec3(i) => {
            let one = d.proof_records[i as int];
            law_signatures_are_found(d.authorities, one.name, one.rtype, s);
        },
        _ => {},
    }
}

/// The step asks for the chosen record by itself, with the signatures over its type at its
/// name.
pub open spec fn asks_for_one(d: DenialCheckView, i: int, s: RrsigView) -> bool {
    let one = d.proof_records[i];
    action_of(d) matches ProofActionView::Verify { records, signatures, allowed } && records
        == seq![one] && allowed == d.left && (signatures.contains(s) <==> signed_in(
        d.authorities,
        one.name,
        one.rtype,
        s,
    ))
}

/// What a denial has to show, and what the examination of a wildcard starts from.
pub proof fn law_what_has_to_be_denied(
    rcode: u16,
    qtype: u16,
    max: u16,
    qname: Seq<Seq<u8>>,
    labels: u8,
    authorities: Seq<RecordView>,
    apex: Seq<Seq<u8>>,
    left: u32,
)
    ensures
        rcode == 3 ==> denied_by(rcode, qtype) == DenialTarget::Name,
        rcode != 3 ==> denied_by(rcode, qtype) == DenialTarget::Data(qtype),
        ({
            let d = wildcard_check(max, qname, labels, authorities, apex, left);
            &&& d.phase is Measure && d.target == DenialTarget::Closer(labels as usize)
            &&& d.qname == qname && d.apex == apex && d.authorities == authorities
            &&& d.left == left && d.max_iterations == max && !d.nxdomain
        }),
{
}

/// A signature that holds and covers the name as it stands makes the answer secure at
/// once, whichever of the signatures it is; one that fails leaves the answer to the next,
/// and to be bogus only after the last.
pub proof fn law_the_steps_of_an_answer(a: AnswerCheckView, valid: bool, left: u32)
    requires
        answer_valid(a),
        a.phase is Signature,
    ensures
        ({
            let b = answer_replied(a, ProofReplyView::Verified { valid, left });
            let covers = a.signatures[a.at].labels == a.qname.len();
            &&& b.qname == a.qname && b.rrset == a.rrset && b.signatures == a.signatures
            &&& b.apex == a.apex && b.authorities == a.authorities && b.max_iterations
                == a.max_iterations
            &&& valid && a.left > 0 && covers ==> b.phase == AnswerPhaseView::Over(
                SecurityStatus::Secure,
            )
            &&& valid && a.left > 0 && !covers ==> b.at == a.at && (b.phase
                matches AnswerPhaseView::Expansion(d) && d.phase is Measure && d.target
                == DenialTarget::Closer(a.signatures[a.at].labels as usize) && d.qname == a.qname
                && d.authorities == a.authorities && d.apex == a.apex && d.max_iterations
                == a.max_iterations)
            &&& (!valid || a.left == 0) && a.at + 1 < a.signatures.len() ==> b.at == a.at + 1
                && b.phase is Signature
            &&& (!valid || a.left == 0) && a.at + 1 == a.signatures.len() ==> b.phase
                == AnswerPhaseView::Over(SecurityStatus::Bogus(6))
        }),
{
}

/// A wildcard whose proof is found secure makes the answer secure; one whose proof ends
/// otherwise leaves the answer to the next signature, and to be bogus only after the last.
pub proof fn law_the_steps_of_an_expansion(
    a: AnswerCheckView,
    d: DenialCheckView,
    reply: ProofReplyView,
)
    requires
        answer_valid(a),
        a.phase == AnswerPhaseView::Expansion(d),
    ensures
        ({
            let b = answer_replied(a, reply);
            let e = replied(d, reply);
            &&& e.phase == ProofPhase::Over(SecurityStatus::Secure) ==> b.phase
                == AnswerPhaseView::Over(SecurityStatus::Secure)
            &&& !(e.phase is Over) ==> b.phase == AnswerPhaseView::Expansion(e) && b.at == a.at
            &&& (e.phase matches ProofPhase::Over(s) && s != SecurityStatus::Secure) ==> if a.at
                + 1 < a.signatures.len() {
                b.at == a.at + 1 && b.phase is Signature
            } else {
                b.phase == AnswerPhaseView::Over(SecurityStatus::Bogus(6))
            }
            &&& b.left == e.left
        }),
{
}

/// What is asked of each signature of an answer: the whole set against that one.
pub proof fn law_what_an_answer_asks_for(a: AnswerCheckView)
    requires
        answer_valid(a),
    ensures
        match a.phase {
            AnswerPhaseView::Signature => answer_action_of(a) matches ProofActionView::Verify {
                records,
                signatures,
                allowed,
            } && records == a.rrset && signatures.len() == 1 && signatures[0] == a.signatures[a.at]
                && allowed == a.left,
            AnswerPhaseView::Expansion(d) => answer_action_of(a) == action_of(d),
            AnswerPhaseView::Over(s) => answer_action_of(a) == ProofActionView::Verdict(s),
        },
{
}

/// The set that an answer stands or falls with: all records of the type asked for at the
/// name, and no other.
pub proof fn law_the_set_that_was_asked_for(
    answers: Seq<RecordView>,
    qname: Seq<Seq<u8>>,
    qtype: u16,
    r: RecordView,
)
    ensures
        answers.filter(in_rrset(qname, qtype)).contains(r) <==> answers.contains(r) && r.class == 1
            && r.rtype == qtype && same_name(r.name, qname),
        answers.filter(soa_at(qname)).contains(r) <==> answers.contains(r) && r.class == 1
            && r.rtype == 6 && same_name(r.name, qname),
{
    lemma_filter_members(answers, in_rrset(qname, qtype), r);
    lemma_filter_members(answers, soa_at(qname), r);
}

/// What needs no keys: everything inside a domain that is exempt, and an answer of
/// signatures. All else is looked at with the keys.
pub proof fn law_what_needs_no_keys(r: Recursor, qname: Seq<Seq<u8>>, qtype: u16, k: int)
    ensures
        0 <= k < r.domain_insecure@.len() && within(qname, r.domain_insecure@[k]@)
            ==> known_without_keys(r, qname, qtype, true) == Some(SecurityStatus::Insecure)
            && known_without_keys(r, qname, qtype, false) == Some(SecurityStatus::Insecure),
        qtype == 46 ==> known_without_keys(r, qname, qtype, true) == Some(SecurityStatus::Insecure),
        (forall|i: int|
            0 <= i < r.domain_insecure@.len() ==> !within(
                qname,
                (#[trigger] r.domain_insecure@[i])@,
            )) ==> known_without_keys(r, qname, qtype, false) is None && (qtype != 46
            ==> known_without_keys(r, qname, qtype, true) is None),
{
    if 0 <= k < r.domain_insecure@.len() && within(qname, r.domain_insecure@[k]@) {
        assert(r.insecure_by_choice(qname));
    }
}

/// A verdict on the last zone that is remembered, holds, and was reached under the present
/// anchors decides; without one the chain has to begin at the root, and is bogus where it
/// does not.
pub proof fn law_what_a_chain_starts_from(
    r: Recursor,
    chain: Seq<ZoneStepView>,
    now_millis: u64,
)
    ensures
        chain.len() == 0 ==> chain_start_of(r, chain, now_millis) == ChainStartView::Known(
            SecurityStatus::Bogus(6),
        ),
        chain.len() > 0 ==> match lookup(r.validated_keys@, fold_case(chain.last().zone)) {
            Some(e) => if e.lifetime.expires_at_millis > now_millis && e.generation
                == r.anchor_generation {
                chain_start_of(r, chain, now_millis) == match e.trust {
                    ZoneTrustView::Secure(keys) => ChainStartView::Trusted(keys),
                    ZoneTrustView::Insecure => ChainStartView::Known(SecurityStatus::Insecure),
                }
            } else {
                untrusted_start(r, chain, now_millis)
            },
            None => untrusted_start(r, chain, now_millis),
        },
{
}

/// Without a verdict at hand, a chain from the root needs keys, any other is bogus.
pub open spec fn untrusted_start(
    r: Recursor,
    chain: Seq<ZoneStepView>,
    now_millis: u64,
) -> bool {
    &&& chain[0].zone.len() == 0 ==> chain_start_of(r, chain, now_millis) is NeedKeys
    &&& chain[0].zone.len() > 0 ==> chain_start_of(r, chain, now_millis) == ChainStartView::Known(
        SecurityStatus::Bogus(6),
    )
}

/// The first zone of a chain whose keys are not at hand is the first one that is not to be
/// passed over and has no keys in the cache that still hold; there is none exactly if all
/// have.
pub proof fn law_the_first_zone_without_keys(
    cache: Seq<(Seq<Seq<u8>>, DnskeyEntryView)>,
    chain: Seq<ZoneStepView>,
    skip: Seq<Seq<Seq<u8>>>,
    i: int,
    now_millis: u64,
)
    requires
        crate::lru::keys_distinct(cache),
        0 <= i <= chain.len(),
    ensures
        match missing_from(cache, chain, skip, i, now_millis).1 {
            Some(k) => i <= k < chain.len() && !skip.contains(fold_case(chain[k].zone))
                && !has_live_keys(cache, chain[k].zone, now_millis) && forall|j: int|
                i <= j < k ==> skip.contains(fold_case((#[trigger] chain[j]).zone))
                    || has_live_keys(cache, chain[j].zone, now_millis),
            None => forall|j: int|
                i <= j < chain.len() ==> skip.contains(fold_case((#[trigger] chain[j]).zone))
                    || has_live_keys(cache, chain[j].zone, now_millis),
        },
    decreases chain.len() - i,
{
    if i < chain.len() {
        let key = fold_case(chain[i].zone);
        if skip.contains(key) {
            law_the_first_zone_without_keys(cache, chain, skip, i + 1, now_millis);
        } else if has_usable::<Seq<Seq<u8>>, DnskeyEntry>(cache, key, now_millis, 0) {
            let next = crate::lru::touched(cache, key);
            crate::lru::law_touch_keeps_the_entries(cache, key);
            law_the_first_zone_without_keys(next, chain, skip, i + 1, now_millis);
            assert forall|j: int| i <= j < chain.len() implies has_live_keys(
                next,
                (#[trigger] chain[j]).zone,
                now_millis,
            ) == has_live_keys(cache, chain[j].zone, now_millis) by {
                assert(lookup(next, fold_case(chain[j].zone)) == lookup(
                    cache,
                    fold_case(chain[j].zone),
                ));
            }
        }
    }
}

/// The zone's keys are in the cache, and they still hold.
pub open spec fn has_live_keys(
    cache: Seq<(Seq<Seq<u8>>, DnskeyEntryView)>,
    zone: Seq<Seq<u8>>,
    now_millis: u64,
) -> bool {
    lookup(cache, fold_case(zone)) matches Some(e) && e.lifetime.expires_at_millis > now_millis
}

/// How a terminal response is checked: by what is known without keys, by the verdict on
/// its zone, by the chain where the keys of all its zones are at hand, and not yet where
/// some are missing.
pub proof fn law_how_a_terminal_response_is_checked(
    r: Recursor,
    qname: Seq<Seq<u8>>,
    qtype: u16,
    chain: Seq<ZoneStepView>,
    positive: bool,
    now_millis: u64,
)
    requires
        crate::lru::keys_distinct(r.dnskey_cache@),
    ensures
        ({
            let t = terminal_check_of(r, qname, qtype, chain, positive, now_millis);
            match known_without_keys(r, qname, qtype, positive) {
                Some(s) => t == TerminalCheckView::Known(s),
                None => match chain_start_of(r, chain, now_millis) {
                    ChainStartView::Trusted(keys) => t == TerminalCheckView::Trusted(keys),
                    ChainStartView::NeedKeys => t == if (forall|j: int|
                        0 <= j < chain.len() ==> has_live_keys(
                            r.dnskey_cache@,
                            (#[trigger] chain[j]).zone,
                            now_millis,
                        )) {
                        TerminalCheckView::CheckChain
                    } else {
                        TerminalCheckView::Deferred
                    },
                    ChainStartView::Known(s) => t == if s is Insecure {
                        TerminalCheckView::Known(s)
                    } else {
                        TerminalCheckView::Deferred
                    },
                },
            }
        }),
{
    let none = Seq::<Seq<Seq<u8>>>::empty();
    law_the_first_zone_without_keys(r.dnskey_cache@, chain, none, 0, now_millis);
    assert(forall|x: Seq<Seq<u8>>| !none.contains(x));
}

} // verus!
