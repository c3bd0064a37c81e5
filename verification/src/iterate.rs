//! The way down from a zone to the answer: what to ask next, and what each
//! response leads to.

use vstd::prelude::*;

use crate::addr::{plain_addr, sort_distinct, sorted_distinct, IpAddr, SocketAddr};
use crate::cache::DelegationView;
use crate::chain::{
    copy_servers, ds_evidence_of, extract_ds, has_name, no_evidence, owned_by, DsEvidence,
    ZoneStep, ZoneStepView,
};
use crate::message::{
    Message, MessageView, RData, RDataView, Record, RecordView, CLASS_IN, RCODE_NXDOMAIN, TYPE_NS,
    TYPE_SOA,
};
use crate::name::{last_labels, same_name, within, Name};
use crate::recursor::{keep_addrs, kept_addrs, min_u32, RecurseError, Recursor};
use crate::response::{
    authoritative_negative, closer, dname_overflow, extract_referral, is_authoritative_negative,
    is_closer, is_dname_yxdomain, is_relevant_positive, is_terminal_response, is_within, least_ttl,
    least_ttl_of, min_ns_ttl, ns_at, referral_servers, referral_zone, relevant_positive,
    strip_out_of_bailiwick_dnames, stripped, terminal,
};
use crate::seqs::{any_element, any_of, lemma_filter_holds, lemma_views_push, pick, views};

verus! {

/// Where the search stands.
pub struct IterationState {
    /// The zone that is being asked.
    pub zone: Name,
    /// The servers of that zone.
    pub servers: Vec<SocketAddr>,
    /// How many labels of the question are settled.
    pub depth: usize,
    /// Whether servers are shown no more of the name than they need.
    pub minimize: bool,
    /// The zones passed so far.
    pub chain: Vec<ZoneStep>,
}

pub struct IterationStateView {
    pub zone: Seq<Seq<u8>>,
    pub servers: Seq<SocketAddr>,
    pub depth: int,
    pub minimize: bool,
    pub chain: Seq<ZoneStepView>,
}

impl View for IterationState {
    type V = IterationStateView;

    open spec fn view(&self) -> IterationStateView {
        IterationStateView {
            zone: self.zone@,
            servers: self.servers@,
            depth: self.depth as int,
            minimize: self.minimize,
            chain: views(self.chain@),
        }
    }
}

/// The next query: how many labels, whether it is the whole name, and the name
/// and type to ask for.
pub struct NextQuery {
    pub target: usize,
    pub is_final: bool,
    pub mname: Name,
    pub mtype: u16,
}

pub struct NextQueryView {
    pub target: int,
    pub is_final: bool,
    pub mname: Seq<Seq<u8>>,
    pub mtype: u16,
}

impl View for NextQuery {
    type V = NextQueryView;

    open spec fn view(&self) -> NextQueryView {
        NextQueryView {
            target: self.target as int,
            is_final: self.is_final,
            mname: self.mname@,
            mtype: self.mtype,
        }
    }
}

/// What stays the same during a search.
pub struct IterationContext {
    pub qname: Name,
    pub qtype: u16,
    /// Whether to gather what each referral says about signatures.
    pub collect_ds: bool,
}

pub struct IterationContextView {
    pub qname: Seq<Seq<u8>>,
    pub qtype: u16,
    pub collect_ds: bool,
}

impl View for IterationContext {
    type V = IterationContextView;

    open spec fn view(&self) -> IterationContextView {
        IterationContextView {
            qname: self.qname@,
            qtype: self.qtype,
            collect_ds: self.collect_ds,
        }
    }
}

/// A referral whose servers have no known address yet.
pub struct PendingReferral {
    pub zone: Name,
    pub resp: Message,
    pub ns_names: Vec<Name>,
    pub addrs: Vec<SocketAddr>,
    pub address_ttl: Option<u32>,
}

pub struct PendingReferralView {
    pub zone: Seq<Seq<u8>>,
    pub resp: MessageView,
    pub ns_names: Seq<Seq<Seq<u8>>>,
    pub addrs: Seq<SocketAddr>,
    pub address_ttl: Option<u32>,
}

impl View for PendingReferral {
    type V = PendingReferralView;

    open spec fn view(&self) -> PendingReferralView {
        PendingReferralView {
            zone: self.zone@,
            resp: self.resp@,
            ns_names: views(self.ns_names@),
            addrs: self.addrs@,
            address_ttl: self.address_ttl,
        }
    }
}

/// What a response leads to.
pub enum StepOutcome {
    /// The search is over.
    Done(Message),
    /// There is another query to send.
    Continue,
    /// Addresses of name servers have to be found first.
    NeedNsAddrs { missing: Vec<Name>, pending: PendingReferral },
    /// The search cannot go on.
    Failed(RecurseError),
}

pub enum StepView {
    Done(MessageView),
    Continue,
    NeedNsAddrs { missing: Seq<Seq<Seq<u8>>>, pending: PendingReferralView },
    Failed(RecurseError),
}

impl View for StepOutcome {
    type V = StepView;

    open spec fn view(&self) -> StepView {
        match self {
            StepOutcome::Done(m) => StepView::Done(m@),
            StepOutcome::Continue => StepView::Continue,
            StepOutcome::NeedNsAddrs { missing, pending } => StepView::NeedNsAddrs {
                missing: views(missing@),
                pending: pending@,
            },
            StepOutcome::Failed(e) => StepView::Failed(*e),
        }
    }
}

/// The first step of a chain: nothing is known of signatures above it.
pub open spec fn first_step(zone: Seq<Seq<u8>>, servers: Seq<SocketAddr>) -> ZoneStepView {
    ZoneStepView { zone, servers, ns_names: Seq::empty(), evidence: no_evidence() }
}

pub open spec fn start_state(
    zone: Seq<Seq<u8>>,
    servers: Seq<SocketAddr>,
) -> IterationStateView {
    IterationStateView {
        zone,
        servers,
        depth: zone.len() as int,
        minimize: true,
        chain: seq![first_step(zone, servers)],
    }
}

/// The next query: one more label than is settled, asking for name servers,
/// until the whole name is due; the whole name at once where minimising was
/// given up.
pub open spec fn plan_of(s: IterationStateView, c: IterationContextView) -> NextQueryView {
    let total = c.qname.len() as int;
    let target = if s.minimize && s.depth + 1 < total {
        s.depth + 1
    } else {
        total
    };
    NextQueryView {
        target,
        is_final: target >= total,
        mname: last_labels(c.qname, target),
        mtype: if target >= total {
            c.qtype
        } else {
            TYPE_NS
        },
    }
}

impl IterationState {
    pub fn start(zone: Name, servers: Vec<SocketAddr>) -> (r: Self)
        ensures
            r@ == start_state(zone@, servers@),
    {
        let depth: usize = zone.num_labels();
        let mut chain: Vec<ZoneStep> = Vec::new();
        let step = ZoneStep {
            zone: zone.clone(),
            servers: copy_servers(&servers),
            ns_names: Vec::new(),
            evidence: DsEvidence::none(),
        };
        assert(views(step.ns_names@) =~= Seq::<Seq<Seq<u8>>>::empty());
        chain.push(step);
        assert(views(chain@) =~= seq![first_step(zone@, servers@)]);
        IterationState { zone, servers, depth, minimize: true, chain }
    }

    /// What to ask next. While minimising, no server sees more labels than it
    /// needs.
    pub fn next_query(&self, ctx: &IterationContext) -> (r: NextQuery)
        ensures
            r@ == plan_of(self@, ctx@),
    {
        let total: usize = ctx.qname.num_labels();
        let target: usize = if self.minimize && self.depth < total && self.depth + 1 < total {
            self.depth + 1
        } else {
            total
        };
        let is_final: bool = target >= total;
        NextQuery {
            target,
            is_final,
            mname: ctx.qname.suffix(target),
            mtype: if is_final {
                ctx.qtype
            } else {
                TYPE_NS
            },
        }
    }
}

/// The address in the data of a record.
pub open spec fn addr_of(d: RDataView) -> Option<IpAddr> {
    match d {
        RDataView::A(a) => Some(IpAddr::V4(a)),
        RDataView::Aaaa(a) => Some(IpAddr::V6(a)),
        _ => None,
    }
}

pub(crate) fn address_in(d: &RData) -> (r: Option<IpAddr>)
    ensures
        r == addr_of(d@),
{
    match d {
        RData::A(a) => Some(IpAddr::V4(*a)),
        RData::Aaaa(a) => Some(IpAddr::V6(*a)),
        _ => None,
    }
}

/// An address of one of the named servers, inside `zone`, that may be asked.
/// Addresses of names outside the zone are not believed.
pub open spec fn glue_record(
    r: Recursor,
    names: Seq<Seq<Seq<u8>>>,
    zone: Seq<Seq<u8>>,
) -> spec_fn(RecordView) -> bool {
    |x: RecordView|
        x.class == CLASS_IN && has_name(names, x.name) && within(x.name, zone) && addr_of(x.rdata)
            is Some && r.eligible(addr_of(x.rdata)->0)
}

pub open spec fn sockets(s: Seq<RecordView>, port: u16) -> Seq<SocketAddr> {
    Seq::new(s.len(), |i: int| plain_addr(addr_of(s[i].rdata)->0, port))
}

/// The name is the owner of none of the records.
pub open spec fn owns_none(records: Seq<RecordView>) -> spec_fn(Seq<Seq<u8>>) -> bool {
    |n: Seq<Seq<u8>>| !any_of(records, owned_by(n))
}

pub struct GlueView {
    pub addrs: Seq<SocketAddr>,
    pub missing: Seq<Seq<Seq<u8>>>,
    pub ttl: Option<u32>,
}

/// What the additional section gives: the addresses, the servers without one,
/// and how long the addresses hold.
pub open spec fn glue_of(
    r: Recursor,
    m: MessageView,
    names: Seq<Seq<Seq<u8>>>,
    zone: Seq<Seq<u8>>,
) -> GlueView {
    let used = m.additionals.filter(glue_record(r, names, zone));
    GlueView {
        addrs: sorted_distinct(sockets(used, r.port)),
        missing: names.filter(owns_none(used)),
        ttl: least_ttl(used),
    }
}

/// Moves to the referred zone. Without an address the search fails.
pub open spec fn referral_finished(
    r: Recursor,
    s: IterationStateView,
    c: IterationContextView,
    p: PendingReferralView,
    now_millis: u64,
) -> (IterationStateView, StepView, Seq<(Seq<Seq<u8>>, DelegationView)>) {
    let addrs = kept_addrs(p.addrs);
    if addrs.len() == 0 {
        (s, StepView::Failed(RecurseError::NoReachableNs), r.deleg_cache@)
    } else {
        (
            IterationStateView {
                zone: p.zone,
                servers: addrs,
                depth: p.zone.len() as int,
                minimize: s.minimize,
                chain: s.chain.push(
                    ZoneStepView {
                        zone: p.zone,
                        servers: addrs,
                        ns_names: p.ns_names,
                        evidence: if c.collect_ds {
                            ds_evidence_of(p.resp, p.zone)
                        } else {
                            no_evidence()
                        },
                    },
                ),
            },
            StepView::Continue,
            match least_ttl(p.resp.authorities.filter(ns_at(p.zone))) {
                Some(t) => r.delegation_stored(
                    p.zone,
                    addrs,
                    match p.address_ttl {
                        Some(a) => min_u32(a, t),
                        None => t,
                    },
                    now_millis,
                ),
                None => r.deleg_cache@,
            },
        )
    }
}

/// The referral may be followed: its zone lies strictly below the present one
/// and around the question.
pub open spec fn acceptable(
    zone: Option<Seq<Seq<u8>>>,
    current: Seq<Seq<u8>>,
    qname: Seq<Seq<u8>>,
) -> bool {
    zone is Some && closer(zone->0, current) && within(qname, zone->0)
}

/// What a response means for the search.
pub enum Verdict {
    /// It ends the search.
    Final,
    /// It is of no use.
    Unreachable,
    /// The whole name has to be asked.
    AskWhole,
    /// It refers to a zone below, served by the given names.
    Referral(Name, Vec<Name>),
    /// The name goes one label further down in the same zone.
    Deepen,
}

pub enum VerdictView {
    Final,
    Unreachable,
    AskWhole,
    Referral(Seq<Seq<u8>>, Seq<Seq<Seq<u8>>>),
    Deepen,
}

impl View for Verdict {
    type V = VerdictView;

    open spec fn view(&self) -> VerdictView {
        match self {
            Verdict::Final => VerdictView::Final,
            Verdict::Unreachable => VerdictView::Unreachable,
            Verdict::AskWhole => VerdictView::AskWhole,
            Verdict::Referral(z, n) => VerdictView::Referral(z@, views(n@)),
            Verdict::Deepen => VerdictView::Deepen,
        }
    }
}

/// What a response means to a search that stands in `zone`.
pub open spec fn verdict_of(
    r: Recursor,
    zone: Seq<Seq<u8>>,
    m: MessageView,
    p: NextQueryView,
    c: IterationContextView,
) -> VerdictView {
    let referred = referral_zone(m, c.qname);
    if p.is_final && relevant_positive(m, c.qname, c.qtype) {
        VerdictView::Final
    } else if dname_overflow(m, c.qname) {
        VerdictView::Final
    } else if m.header.rcode == RCODE_NXDOMAIN {
        if !authoritative_negative(m, p.mname, zone) {
            VerdictView::Unreachable
        } else if p.is_final || r.qname_min_strict {
            VerdictView::Final
        } else {
            VerdictView::AskWhole
        }
    } else if acceptable(referred, zone, c.qname) {
        VerdictView::Referral(referred->0, referral_servers(m, referred->0))
    } else if p.is_final {
        if terminal(m, c.qname, zone) {
            VerdictView::Final
        } else {
            VerdictView::Unreachable
        }
    } else if r.harden_referral_path && (referred is Some || !m.header.authoritative) {
        VerdictView::Unreachable
    } else {
        VerdictView::Deepen
    }
}

/// The response as it is looked at: a final one without the renamings that its
/// sender is not in charge of.
pub open spec fn considered(
    resp: MessageView,
    p: NextQueryView,
    zone: Seq<Seq<u8>>,
) -> MessageView {
    if p.is_final {
        stripped(resp, zone)
    } else {
        resp
    }
}

/// What a response leads to: the new state, the outcome, and the delegations
/// that are remembered.
pub open spec fn advanced(
    r: Recursor,
    s: IterationStateView,
    resp: MessageView,
    p: NextQueryView,
    c: IterationContextView,
    now_millis: u64,
) -> (IterationStateView, StepView, Seq<(Seq<Seq<u8>>, DelegationView)>) {
    let m = considered(resp, p, s.zone);
    match verdict_of(r, s.zone, m, p, c) {
        VerdictView::Final => (s, StepView::Done(m), r.deleg_cache@),
        VerdictView::Unreachable => (
            s,
            StepView::Failed(RecurseError::NoReachableNs),
            r.deleg_cache@,
        ),
        VerdictView::AskWhole => (
            IterationStateView { minimize: false, ..s },
            StepView::Continue,
            r.deleg_cache@,
        ),
        VerdictView::Referral(zone, names) => {
            let glue = glue_of(r, m, names, s.zone);
            let pending = PendingReferralView {
                zone,
                resp: m,
                ns_names: names,
                addrs: glue.addrs,
                address_ttl: glue.ttl,
            };
            if glue.missing.len() > 0 && glue.addrs.len() == 0 {
                (s, StepView::NeedNsAddrs { missing: glue.missing, pending }, r.deleg_cache@)
            } else {
                referral_finished(r, s, c, pending, now_millis)
            }
        },
        VerdictView::Deepen => (
            IterationStateView { depth: p.target, ..s },
            StepView::Continue,
            r.deleg_cache@,
        ),
    }
}

/// The search moves only downwards and only around the question: after any
/// response the zone is the same, or it lies strictly below the old one and
/// the question lies within it.
pub proof fn law_search_stays_in_bailiwick(
    r: Recursor,
    s: IterationStateView,
    resp: MessageView,
    p: NextQueryView,
    c: IterationContextView,
    now_millis: u64,
)
    ensures
        ({
            let t = advanced(r, s, resp, p, c, now_millis).0;
            t.zone == s.zone || (closer(t.zone, s.zone) && within(c.qname, t.zone) && t.chain.len()
                == s.chain.len() + 1 && t.chain.last().zone == t.zone)
        }),
        ({
            let out = advanced(r, s, resp, p, c, now_millis).1;
            out matches StepView::NeedNsAddrs { missing, pending } ==> closer(
                pending.zone,
                s.zone,
            ) && within(c.qname, pending.zone)
        }),
{
}

/// No address outside the allowed servers is taken from a referral, and no
/// address of a name outside the zone that was asked.
pub proof fn law_glue_is_eligible_and_in_zone(
    r: Recursor,
    m: MessageView,
    names: Seq<Seq<Seq<u8>>>,
    zone: Seq<Seq<u8>>,
    a: SocketAddr,
)
    requires
        glue_of(r, m, names, zone).addrs.contains(a),
    ensures
        r.eligible(a.ip),
        a.port == r.port,
        exists|x: RecordView|
            m.additionals.contains(x) && within(x.name, zone) && has_name(names, x.name) && addr_of(
                x.rdata,
            ) == Some(a.ip),
{
    let p = glue_record(r, names, zone);
    let used = m.additionals.filter(p);
    lemma_filter_holds(m.additionals, p);
    crate::addr::lemma_sorted_distinct(sockets(used, r.port));
    assert(sockets(used, r.port).contains(a));
    let k = choose|k: int| 0 <= k < used.len() && sockets(used, r.port)[k] == a;
    assert(p(used[k]));
    assert(m.additionals.contains(used[k]));
}

fn names_contain(names: &Vec<Name>, n: &Name) -> (r: bool)
    ensures
        r == has_name(views(names@), n@),
{
    let mut i: usize = 0;
    while i < names.len()
        invariant
            i <= names.len(),
            forall|k: int| 0 <= k < i ==> !same_name(#[trigger] views(names@)[k], n@),
        decreases names.len() - i,
    {
        if names[i].eq_ignore_case(n) {
            assert(same_name(views(names@)[i as int], n@));
            return true;
        }
        assert(!same_name(views(names@)[i as int], n@));
        i = i + 1;
    }
    false
}

impl Recursor {
    /// The addresses that a referral brings along, the servers that it brings
    /// none for, and how long the addresses hold.
    pub fn glue_addrs(&self, resp: &Message, ns_names: &Vec<Name>, zone: &Name) -> (r: (
        Vec<SocketAddr>,
        Vec<Name>,
        Option<u32>,
    ))
        ensures
            ({
                let g = glue_of(*self, resp@, views(ns_names@), zone@);
                r.0@ == g.addrs && views(r.1@) == g.missing && r.2 == g.ttl
            }),
    {
        let ghost p = glue_record(*self, views(ns_names@), zone@);
        let used = pick(
            &resp.additionals,
            |x: &Record| -> (b: bool)
                ensures
                    b == glue_record(*self, views(ns_names@), zone@)(x@)
                {
                    x.class == CLASS_IN && names_contain(ns_names, &x.name) && is_within(
                        &x.name,
                        zone,
                    ) && match address_in(&x.rdata) {
                        Some(ip) => self.server_eligible(ip),
                        None => false,
                    }
                },
            Ghost(p),
        );
        proof {
            lemma_filter_holds(resp@.additionals, p);
            assert forall|k: int| 0 <= k < used.len() implies addr_of(
                (#[trigger] used@[k])@.rdata,
            ) is Some by {
                assert(p(views(used@)[k]));
            }
        }
        let mut addrs: Vec<SocketAddr> = Vec::new();
        let mut i: usize = 0;
        while i < used.len()
            invariant
                i <= used.len(),
                forall|k: int| 0 <= k < used.len() ==> addr_of((#[trigger] used@[k])@.rdata) is Some,
                addrs@ =~= sockets(views(used@), self.port).take(i as int),
            decreases used.len() - i,
        {
            match address_in(&used[i].rdata) {
                Some(ip) => {
                    addrs.push(SocketAddr::new(ip, self.port));
                },
                None => {
                    assert(addr_of(used@[i as int]@.rdata) is Some);
                },
            }
            i = i + 1;
        }
        assert(addrs@ =~= sockets(views(used@), self.port));
        let missing = pick(
            ns_names,
            |n: &Name| -> (b: bool)
                ensures
                    b == owns_none(views(used@))(n@)
                {
                    !any_element(
                        &used,
                        |x: &Record| -> (c: bool)
                            ensures
                                c == owned_by(n@)(x@)
                            { x.name.eq_ignore_case(n) },
                        Ghost(owned_by(n@)),
                    )
                },
            Ghost(owns_none(views(used@))),
        );
        let ttl = least_ttl_of(&used);
        (sort_distinct(&addrs), missing, ttl)
    }

    /// Moves the search to the zone of a referral whose addresses are known,
    /// and remembers that zone's servers.
    pub fn finish_referral(
        &mut self,
        state: &mut IterationState,
        ctx: &IterationContext,
        pending: PendingReferral,
        now_millis: u64,
    ) -> (r: StepOutcome)
        ensures
            ({
                let t = referral_finished(*old(self), old(state)@, ctx@, pending@, now_millis);
                final(state)@ == t.0 && r@ == t.1 && final(self).deleg_cache@ == t.2
            }),
            final(self).deleg_cache.capacity() == old(self).deleg_cache.capacity(),
            *final(self) == (Recursor { deleg_cache: final(self).deleg_cache, ..*old(self) }),
    {
        let addrs = keep_addrs(&pending.addrs);
        if addrs.len() == 0 {
            return StepOutcome::Failed(RecurseError::NoReachableNs);
        }
        if let Some(t) = min_ns_ttl(&pending.resp, &pending.zone) {
            let ttl: u32 = match pending.address_ttl {
                Some(a) => if a <= t {
                    a
                } else {
                    t
                },
                None => t,
            };
            self.deleg_store(&pending.zone, &addrs, ttl, now_millis);
        }
        let evidence = if ctx.collect_ds {
            extract_ds(&pending.resp, &pending.zone)
        } else {
            DsEvidence::none()
        };
        let step = ZoneStep {
            zone: pending.zone.clone(),
            servers: copy_servers(&addrs),
            ns_names: pending.ns_names,
            evidence,
        };
        proof {
            lemma_views_push(state.chain@, step);
        }
        state.chain.push(step);
        state.servers = addrs;
        state.depth = pending.zone.num_labels();
        state.zone = pending.zone;
        StepOutcome::Continue
    }

    /// Judges a response. A final one is first held against the question; a
    /// denial is believed only from the zone that was asked; a referral counts
    /// only downwards and around the question. A denial of a shortened name is
    /// not trusted, unless strict minimising is set.
    fn judge(
        &self,
        zone: &Name,
        resp: &Message,
        plan: &NextQuery,
        ctx: &IterationContext,
    ) -> (r: Verdict)
        ensures
            r@ == verdict_of(*self, zone@, resp@, plan@, ctx@),
    {
        if plan.is_final && is_relevant_positive(resp, &ctx.qname, ctx.qtype) {
            return Verdict::Final;
        }
        if is_dname_yxdomain(resp, &ctx.qname) {
            return Verdict::Final;
        }
        if resp.header.rcode == RCODE_NXDOMAIN {
            if !is_authoritative_negative(resp, &plan.mname, zone) {
                return Verdict::Unreachable;
            }
            if plan.is_final || self.qname_min_strict {
                return Verdict::Final;
            }
            return Verdict::AskWhole;
        }
        let (referral, ns_names) = extract_referral(resp, &ctx.qname);
        let was_referred: bool = referral.is_some();
        if let Some(z) = referral {
            if is_closer(&z, zone) && is_within(&ctx.qname, &z) {
                return Verdict::Referral(z, ns_names);
            }
        }
        if plan.is_final {
            if is_terminal_response(resp, &ctx.qname, zone) {
                return Verdict::Final;
            }
            return Verdict::Unreachable;
        }
        if self.harden_referral_path && (was_referred || !resp.header.authoritative) {
            return Verdict::Unreachable;
        }
        Verdict::Deepen
    }

    /// Decides what a response leads to, and takes the step.
    pub fn advance(
        &mut self,
        state: &mut IterationState,
        resp: Message,
        plan: &NextQuery,
        ctx: &IterationContext,
        now_millis: u64,
    ) -> (r: StepOutcome)
        ensures
            ({
                let t = advanced(*old(self), old(state)@, resp@, plan@, ctx@, now_millis);
                final(state)@ == t.0 && r@ == t.1 && final(self).deleg_cache@ == t.2
            }),
            final(self).deleg_cache.capacity() == old(self).deleg_cache.capacity(),
            *final(self) == (Recursor { deleg_cache: final(self).deleg_cache, ..*old(self) }),
    {
        let mut resp = resp;
        if plan.is_final {
            strip_out_of_bailiwick_dnames(&mut resp, &state.zone);
        }
        match self.judge(&state.zone, &resp, plan, ctx) {
            Verdict::Final => StepOutcome::Done(resp),
            Verdict::Unreachable => StepOutcome::Failed(RecurseError::NoReachableNs),
            Verdict::AskWhole => {
                state.minimize = false;
                StepOutcome::Continue
            },
            Verdict::Referral(zone, ns_names) => {
                let (addrs, missing, address_ttl) = self.glue_addrs(&resp, &ns_names, &state.zone);
                assert(views(missing@).len() == missing.len());
                let pending = PendingReferral { zone, resp, ns_names, addrs, address_ttl };
                if missing.len() > 0 && pending.addrs.len() == 0 {
                    return StepOutcome::NeedNsAddrs { missing, pending };
                }
                self.finish_referral(state, ctx, pending, now_millis)
            },
            Verdict::Deepen => {
                state.depth = plan.target;
                StepOutcome::Continue
            },
        }
    }
}

/// What is asked: while minimising, exactly one label more than is settled, for name
/// servers; as soon as that would be the whole name, or minimising was given up, the very
/// question. No server is shown another name than an end of the question's.
pub proof fn law_what_is_asked_next(s: IterationStateView, c: IterationContextView)
    requires
        0 <= s.depth,
    ensures
        ({
            let p = plan_of(s, c);
            let total = c.qname.len();
            &&& s.minimize && s.depth + 1 < total ==> {
                &&& !p.is_final
                &&& p.target == s.depth + 1
                &&& p.mname.len() == s.depth + 1
                &&& c.qname == c.qname.take(total - p.mname.len()) + p.mname
                &&& p.mtype == 2
            }
            &&& !s.minimize || s.depth + 1 >= total ==> {
                &&& p.is_final
                &&& p.target == total
                &&& p.mname == c.qname
                &&& p.mtype == c.qtype
            }
        }),
{
    let p = plan_of(s, c);
    let total = c.qname.len();
    if s.minimize && s.depth + 1 < total {
        assert(c.qname =~= c.qname.take(total - p.mname.len()) + p.mname);
    } else {
        assert(c.qname.skip(0) =~= c.qname);
    }
}

/// A search begins in its zone with as many labels settled as the zone has, minimising,
/// and with that zone alone behind it.
pub proof fn law_where_a_search_begins(zone: Seq<Seq<u8>>, servers: Seq<SocketAddr>)
    ensures
        ({
            let s = start_state(zone, servers);
            &&& s.zone == zone && s.servers == servers && s.depth == zone.len() && s.minimize
            &&& s.chain.len() == 1
            &&& s.chain[0].zone == zone && s.chain[0].servers == servers
            &&& s.chain[0].ns_names.len() == 0 && s.chain[0].evidence == no_evidence()
        }),
{
}

/// A denial from the zone that was asked never fails a search. Of the whole name, or with
/// strict minimising, it ends the search and is its outcome; of a shortened name it leads
/// to the very question being asked next, in the same zone, of the same servers.
pub proof fn law_a_denial_ends_the_search_or_asks_the_whole_name(
    r: Recursor,
    s: IterationStateView,
    resp: MessageView,
    p: NextQueryView,
    c: IterationContextView,
    now_millis: u64,
    k: int,
)
    requires
        resp.header.rcode == 3,
        resp.header.authoritative,
        within(p.mname, s.zone),
        0 <= k < resp.authorities.len(),
        resp.authorities[k].class == CLASS_IN,
        resp.authorities[k].rtype == TYPE_SOA,
        same_name(resp.authorities[k].name, s.zone),
    ensures
        ({
            let a = advanced(r, s, resp, p, c, now_millis);
            let next = plan_of(a.0, c);
            &&& a.2 == r.deleg_cache@
            &&& p.is_final || r.qname_min_strict ==> a.0 == s && (a.1 matches StepView::Done(m)
                && m.header == resp.header && m.questions == resp.questions && m.authorities
                == resp.authorities && m.additionals == resp.additionals && (!p.is_final
                ==> m.answers == resp.answers))
            &&& !p.is_final && !r.qname_min_strict ==> {
                &&& a.1 is Continue
                &&& a.0.zone == s.zone && a.0.servers == s.servers && a.0.chain == s.chain
                &&& next.is_final && next.mname == c.qname && next.mtype == c.qtype
            }
        }),
{
    crate::response::law_who_may_deny(considered(resp, p, s.zone), p.mname, s.zone);
    crate::response::law_who_may_deny(resp, p.mname, s.zone);
    let a = advanced(r, s, resp, p, c, now_millis);
    assert(c.qname.skip(0) =~= c.qname);
}

/// A denial that does not come from the zone that was asked is of no use, whatever was
/// asked.
pub proof fn law_a_foreign_denial_is_not_believed(
    r: Recursor,
    s: IterationStateView,
    resp: MessageView,
    p: NextQueryView,
    c: IterationContextView,
    now_millis: u64,
)
    requires
        resp.header.rcode == 3,
        !resp.header.authoritative || !within(p.mname, s.zone) || forall|i: int|
            0 <= i < resp.authorities.len() ==> (#[trigger] resp.authorities[i]).rtype != TYPE_SOA
                || !same_name(resp.authorities[i].name, s.zone),
    ensures
        ({
            let a = advanced(r, s, resp, p, c, now_millis);
            a.0 == s && a.1 == StepView::Failed(RecurseError::NoReachableNs) && a.2
                == r.deleg_cache@
        }),
{
    crate::response::law_who_may_deny(considered(resp, p, s.zone), p.mname, s.zone);
    crate::response::law_who_may_deny(resp, p.mname, s.zone);
}

/// A response to the whole question that answers it, or that says with the authority of
/// the zone that there is no such data, ends the search and is its outcome, without the
/// renamings that the zone is not in charge of. One that does neither and refers nowhere
/// fails it.
pub proof fn law_a_final_response_ends_the_search(
    r: Recursor,
    s: IterationStateView,
    resp: MessageView,
    p: NextQueryView,
    c: IterationContextView,
    now_millis: u64,
)
    requires
        p.is_final,
        resp.header.rcode == 0,
    ensures
        ({
            let a = advanced(r, s, resp, p, c, now_millis);
            let m = stripped(resp, s.zone);
            let done = a.0 == s && a.1 == StepView::Done(m) && a.2 == r.deleg_cache@;
            &&& relevant_positive(m, c.qname, c.qtype) ==> done
            &&& authoritative_negative(m, c.qname, s.zone) ==> done
            &&& !relevant_positive(m, c.qname, c.qtype) && !authoritative_negative(
                m,
                c.qname,
                s.zone,
            ) && referral_zone(m, c.qname) is None ==> a.0 == s && a.1 == StepView::Failed(
                RecurseError::NoReachableNs,
            )
        }),
{
}

/// While the name is still shortened, a response that neither denies nor refers leads one
/// label further down: everything else stays as it is. Only where the path of referrals
/// is hardened does one without authority, or one that refers elsewhere, fail the search.
pub proof fn law_a_shortened_name_grows_label_by_label(
    r: Recursor,
    s: IterationStateView,
    resp: MessageView,
    p: NextQueryView,
    c: IterationContextView,
    now_millis: u64,
)
    requires
        !p.is_final,
        resp.header.rcode != 3,
        resp.header.rcode != 6,
        referral_zone(resp, c.qname) matches Some(z) ==> !(z.len() > s.zone.len() && within(
            z,
            s.zone,
        ) && within(c.qname, z)),
    ensures
        ({
            let a = advanced(r, s, resp, p, c, now_millis);
            let suspicious = referral_zone(resp, c.qname) is Some || !resp.header.authoritative;
            &&& a.2 == r.deleg_cache@
            &&& r.harden_referral_path && suspicious ==> a.0 == s && a.1 == StepView::Failed(
                RecurseError::NoReachableNs,
            )
            &&& !(r.harden_referral_path && suspicious) ==> {
                &&& a.1 is Continue
                &&& a.0.depth == p.target
                &&& a.0.zone == s.zone && a.0.servers == s.servers && a.0.chain == s.chain
                &&& a.0.minimize == s.minimize
            }
        }),
{
}

/// Every address that the additional section gives for a named server inside the zone,
/// and that may be asked, is taken, whatever its family. A server is missing exactly if
/// none was taken for it, and the addresses hold as long as the first of them to expire.
pub proof fn law_no_glue_is_left_behind(
    r: Recursor,
    m: MessageView,
    names: Seq<Seq<Seq<u8>>>,
    zone: Seq<Seq<u8>>,
    k: int,
    ip: IpAddr,
)
    requires
        0 <= k < m.additionals.len(),
        m.additionals[k].class == CLASS_IN,
        m.additionals[k].rdata == match ip {
            IpAddr::V4(a) => RDataView::A(a),
            IpAddr::V6(a) => RDataView::Aaaa(a),
        },
        exists|i: int| 0 <= i < names.len() && same_name(#[trigger] names[i], m.additionals[k].name),
        within(m.additionals[k].name, zone),
        r.eligible(ip),
    ensures
        ({
            let g = glue_of(r, m, names, zone);
            &&& g.addrs.contains(SocketAddr { ip, port: r.port, flowinfo: 0, scope_id: 0 })
            &&& forall|i: int|
                0 <= i < g.missing.len() ==> !same_name(
                    #[trigger] g.missing[i],
                    m.additionals[k].name,
                )
            &&& g.ttl matches Some(t) && t <= m.additionals[k].ttl
        }),
{
    let x = m.additionals[k];
    let p = glue_record(r, names, zone);
    let used = m.additionals.filter(p);
    assert(p(x));
    lemma_filter_holds(m.additionals, p);
    assert(used.contains(x));
    let j = choose|j: int| 0 <= j < used.len() && used[j] == x;
    assert(sockets(used, r.port)[j] == plain_addr(ip, r.port));
    assert(sockets(used, r.port).contains(plain_addr(ip, r.port)));
    crate::addr::lemma_sorted_distinct(sockets(used, r.port));
    crate::response::lemma_least_ttl(used);
    assert(used[j].ttl == x.ttl);
    let missing = names.filter(owns_none(used));
    lemma_filter_holds(names, owns_none(used));
    assert forall|i: int| 0 <= i < missing.len() implies !same_name(
        #[trigger] missing[i],
        x.name,
    ) by {
        assert(owns_none(used)(missing[i]));
        if same_name(missing[i], x.name) {
            assert(owned_by(missing[i])(used[j]));
            assert(any_of(used, owned_by(missing[i])));
        }
    }
}

/// A server is missing exactly if it is one of those named and the additional section
/// gives no address for it that may be taken.
pub proof fn law_which_servers_are_missing(
    r: Recursor,
    m: MessageView,
    names: Seq<Seq<Seq<u8>>>,
    zone: Seq<Seq<u8>>,
    n: Seq<Seq<u8>>,
)
    ensures
        glue_of(r, m, names, zone).missing.contains(n) <==> names.contains(n) && forall|k: int|
            0 <= k < m.additionals.len() && same_name((#[trigger] m.additionals[k]).name, n)
                && m.additionals[k].class == CLASS_IN && within(m.additionals[k].name, zone) ==> !(
            m.additionals[k].rdata matches RDataView::A(a) && r.eligible(IpAddr::V4(a))) && !(
            m.additionals[k].rdata matches RDataView::Aaaa(a) && r.eligible(IpAddr::V6(a))),
        glue_of(r, m, names, zone).addrs.len() == 0 ==> glue_of(r, m, names, zone).missing == names
            && glue_of(r, m, names, zone).ttl is None,
        glue_of(r, m, names, zone).addrs.len() > 0 ==> glue_of(r, m, names, zone).ttl is Some,
{
    let p = glue_record(r, names, zone);
    let used = m.additionals.filter(p);
    let missing = glue_of(r, m, names, zone).missing;
    lemma_filter_holds(m.additionals, p);
    crate::seqs::lemma_filter_members(names, owns_none(used), n);
    crate::addr::lemma_sorted_distinct(sockets(used, r.port));
    crate::response::lemma_least_ttl(used);
    if names.contains(n) {
        if any_of(used, owned_by(n)) {
            let j = choose|j: int| 0 <= j < used.len() && owned_by(n)(#[trigger] used[j]);
            assert(p(used[j]));
            assert(m.additionals.contains(used[j]));
            let k = choose|k: int| 0 <= k < m.additionals.len() && m.additionals[k] == used[j];
            assert(same_name(m.additionals[k].name, n));
        } else {
            assert forall|k: int|
                0 <= k < m.additionals.len() && same_name((#[trigger] m.additionals[k]).name, n)
                    && m.additionals[k].class == CLASS_IN && within(
                    m.additionals[k].name,
                    zone,
                ) implies !(m.additionals[k].rdata matches RDataView::A(a) && r.eligible(
                IpAddr::V4(a),
            )) && !(m.additionals[k].rdata matches RDataView::Aaaa(a) && r.eligible(
                IpAddr::V6(a),
            )) by {
                let x = m.additionals[k];
                let i = choose|i: int| 0 <= i < names.len() && names[i] == n;
                assert(same_name(names[i], x.name));
                if p(x) {
                    assert(used.contains(x));
                    let j = choose|j: int| 0 <= j < used.len() && used[j] == x;
                    assert(owned_by(n)(used[j]));
                }
            }
        }
    }
    if used.len() == 0 {
        assert forall|i: int| 0 <= i < names.len() implies owns_none(used)(#[trigger] names[i]) by {}
        lemma_filter_all(names, owns_none(used));
    }
}

proof fn lemma_filter_all<V>(s: Seq<V>, p: spec_fn(V) -> bool)
    requires
        forall|i: int| 0 <= i < s.len() ==> p(#[trigger] s[i]),
    ensures
        s.filter(p) == s,
    decreases s.len(),
{
    reveal(Seq::filter);
    if s.len() > 0 {
        let m = s.drop_last();
        assert forall|i: int| 0 <= i < m.len() implies p(#[trigger] m[i]) by {
            assert(m[i] == s[i]);
        }
        lemma_filter_all(m, p);
        assert(p(s[s.len() - 1]));
        assert(m.push(s.last()) =~= s);
    } else {
        assert(s.filter(p) =~= s);
    }
}

/// A referral strictly downwards and around the question is followed, whether the name
/// was shortened or not: it is never taken for an answer, and it never fails the search.
/// With an address at hand the search stands in the new zone at once, with at most 64
/// servers, each from the glue; without one, the addresses of all its servers are to be
/// found first, and nothing changes before that.
pub proof fn law_a_referral_is_followed(
    r: Recursor,
    s: IterationStateView,
    resp: MessageView,
    p: NextQueryView,
    c: IterationContextView,
    now_millis: u64,
)
    requires
        referral_zone(resp, c.qname) is Some,
        referral_zone(resp, c.qname)->0.len() > s.zone.len(),
        within(referral_zone(resp, c.qname)->0, s.zone),
    ensures
        ({
            let a = advanced(r, s, resp, p, c, now_millis);
            let z = referral_zone(resp, c.qname)->0;
            let names = referral_servers(resp, z);
            let g = glue_of(r, resp, names, s.zone);
            &&& g.addrs.len() > 0 ==> {
                &&& a.1 is Continue
                &&& a.0.zone == z && a.0.depth == z.len() && a.0.minimize == s.minimize
                &&& 0 < a.0.servers.len() <= 64
                &&& forall|i: int|
                    0 <= i < a.0.servers.len() ==> g.addrs.contains(#[trigger] a.0.servers[i])
                &&& g.addrs.len() <= 64 ==> a.0.servers == g.addrs
                &&& a.0.chain.len() == s.chain.len() + 1
                &&& a.0.chain.drop_last() == s.chain
                &&& a.0.chain.last().zone == z && a.0.chain.last().servers == a.0.servers
                &&& a.0.chain.last().ns_names == names
                &&& a.0.chain.last().evidence == if c.collect_ds {
                    ds_evidence_of(resp, z)
                } else {
                    no_evidence()
                }
            }
            &&& g.addrs.len() == 0 ==> a.0 == s && a.2 == r.deleg_cache@ && (a.1
                matches StepView::NeedNsAddrs { missing, pending } && missing == names
                && pending.zone == z && pending.ns_names == names && pending.addrs.len() == 0
                && pending.address_ttl is None && pending.resp == resp)
        }),
{
    let z = referral_zone(resp, c.qname)->0;
    let names = referral_servers(resp, z);
    let m = considered(resp, p, s.zone);
    crate::response::law_a_referral_goes_to_the_deepest_zone(resp, c.qname, 0);
    assert(resp.answers =~= Seq::<RecordView>::empty());
    lemma_filter_holds(resp.answers, crate::response::in_bailiwick(s.zone));
    assert(m.answers =~= resp.answers);
    assert(m == resp);
    let i = choose|i: int|
        0 <= i < resp.authorities.len() && (#[trigger] resp.authorities[i]).class == CLASS_IN
            && resp.authorities[i].rdata is Ns && resp.authorities[i].name == z;
    let server = resp.authorities[i].rdata->Ns_0;
    crate::response::law_a_referral_names_every_server(resp, z, server);
    assert(names.contains(server));
    let g = glue_of(r, resp, names, s.zone);
    law_which_servers_are_missing(r, resp, names, s.zone, server);
    crate::addr::lemma_sorted_distinct(
        sockets(resp.additionals.filter(glue_record(r, names, s.zone)), r.port),
    );
    crate::addr::lemma_ascending_is_sorted(g.addrs);
    let a = advanced(r, s, resp, p, c, now_millis);
    if g.addrs.len() > 0 {
        assert(a.0.chain.drop_last() =~= s.chain);
        assert forall|j: int| 0 <= j < a.0.servers.len() implies g.addrs.contains(
            #[trigger] a.0.servers[j],
        ) by {
            assert(a.0.servers[j] == g.addrs[j]);
        }
    }
}

/// Once addresses are at hand, the search moves to the referred zone and remembers its
/// servers for as long as the name servers and the addresses both hold; without any, the
/// search fails and remembers nothing.
pub proof fn law_a_finished_referral_is_remembered(
    r: Recursor,
    s: IterationStateView,
    c: IterationContextView,
    p: PendingReferralView,
    now_millis: u64,
    ttl: u32,
)
    requires
        crate::lru::keys_distinct(r.deleg_cache@),
        r.deleg_cache@.len() <= r.deleg_cache.capacity(),
        r.deleg_cache.capacity() >= 1,
        least_ttl(p.resp.authorities.filter(ns_at(p.zone))) == Some(ttl),
    ensures
        ({
            let t = referral_finished(r, s, c, p, now_millis);
            let shorter = if p.address_ttl is Some && p.address_ttl->0 < ttl {
                p.address_ttl->0
            } else {
                ttl
            };
            let held = if shorter < r.recursive_cache_ttl_max {
                shorter
            } else {
                r.recursive_cache_ttl_max
            };
            &&& p.addrs.len() == 0 ==> t.0 == s && t.1 == StepView::Failed(
                RecurseError::NoReachableNs,
            ) && t.2 == r.deleg_cache@
            &&& p.addrs.len() > 0 ==> {
                &&& t.1 is Continue
                &&& t.0.zone == p.zone && t.0.depth == p.zone.len()
                &&& 0 < t.0.servers.len() <= 64
                &&& forall|i: int|
                    0 <= i < t.0.servers.len() ==> p.addrs.contains(#[trigger] t.0.servers[i])
                &&& held == 0 ==> t.2 == r.deleg_cache@
                &&& held > 0 ==> (crate::lru::lookup(t.2, crate::name::fold_case(p.zone))
                    matches Some(e) && e.servers == t.0.servers && e.lifetime
                    == crate::cache::lifetime_of(held, now_millis))
            }
        }),
{
    crate::addr::lemma_sorted_distinct(p.addrs);
    let addrs = kept_addrs(p.addrs);
    crate::addr::lemma_ascending_is_sorted(addrs);
    let t = referral_finished(r, s, c, p, now_millis);
    if p.addrs.len() > 0 {
        let all = crate::addr::sorted_distinct(p.addrs);
        assert(addrs.len() > 0);
        assert forall|i: int| 0 <= i < addrs.len() implies p.addrs.contains(
            #[trigger] addrs[i],
        ) by {
            assert(addrs[i] == all[i]);
            assert(all.contains(all[i]));
        }
        let held = r.cache_ttl(
            match p.address_ttl {
                Some(a) => min_u32(a, ttl),
                None => ttl,
            },
        );
        if held > 0 {
            crate::lru::law_store_then_find(
                r.deleg_cache@,
                r.deleg_cache.capacity(),
                crate::name::fold_case(p.zone),
                DelegationView {
                    servers: kept_addrs(addrs),
                    lifetime: crate::cache::lifetime_of(held, now_millis),
                },
            );
        }
    }
}

} // verus!
