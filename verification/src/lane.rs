//! One search among many that share a thread: what it sends next, which replies it
//! takes, and where they lead.

use vstd::prelude::*;

use crate::addr::SocketAddr;
use crate::infra::{millis_of, stat_after_success, stat_of, InfraStat};
use crate::iterate::{
    advanced, plan_of, referral_finished, start_state, IterationContext, IterationContextView,
    IterationState, IterationStateView, NextQuery, NextQueryView, PendingReferral,
    PendingReferralView, StepOutcome, StepView,
};
use crate::lru::stored;
use crate::message::{Header, Message, MessageView};
use crate::name::{fold_case, Name};
use crate::query::{make_query, query_message};
use crate::recursor::{RecurseError, Recursor};
use crate::response::{
    min_optional_ttl, min_ttl, questions_case_exact, response_usable_for_iteration,
    same_questions, usable,
};
use crate::search::{outgoing_questions, server_share, IterationView, MIN_SERVER_NANOS};
use crate::seqs::{pick, views};

verus! {

/// A query that was sent and not answered yet.
pub struct Awaited {
    pub sent: Message,
    pub target: SocketAddr,
    pub sent_at: u64,
    pub deadline: u64,
}

pub struct AwaitedView {
    pub sent: MessageView,
    pub target: SocketAddr,
    pub sent_at: u64,
    pub deadline: u64,
}

impl View for Awaited {
    type V = AwaitedView;

    open spec fn view(&self) -> AwaitedView {
        AwaitedView {
            sent: self.sent@,
            target: self.target,
            sent_at: self.sent_at,
            deadline: self.deadline,
        }
    }
}

/// How far a search has come.
pub struct Session {
    pub qname: Name,
    pub qtype: u16,
    pub state: IterationState,
    pub plan: NextQuery,
    /// The servers to ask, in order, and the place of the one whose turn it is.
    pub ladder: Vec<SocketAddr>,
    pub at: usize,
    pub per_server: u64,
    pub awaited: Option<Awaited>,
    /// How many queries were planned, and how many may be.
    pub steps: usize,
    pub step_cap: usize,
}

pub struct SessionView {
    pub qname: Seq<Seq<u8>>,
    pub qtype: u16,
    pub state: IterationStateView,
    pub plan: NextQueryView,
    pub ladder: Seq<SocketAddr>,
    pub at: int,
    pub per_server: u64,
    pub awaited: Option<AwaitedView>,
    pub steps: int,
    pub step_cap: int,
}

pub open spec fn awaited_view(a: Option<Awaited>) -> Option<AwaitedView> {
    match a {
        Some(a) => Some(a@),
        None => None,
    }
}

impl View for Session {
    type V = SessionView;

    open spec fn view(&self) -> SessionView {
        SessionView {
            qname: self.qname@,
            qtype: self.qtype,
            state: self.state@,
            plan: self.plan@,
            ladder: self.ladder@,
            at: self.at as int,
            per_server: self.per_server,
            awaited: awaited_view(self.awaited),
            steps: self.steps as int,
            step_cap: self.step_cap as int,
        }
    }
}

/// Why a search stopped.
pub enum SessionEnd {
    Done(Message),
    Failed(RecurseError),
    /// It has to be done the blocking way.
    NeedsSync,
    /// Addresses of name servers have to be found first.
    NeedAddrs { missing: Vec<Name>, pending: PendingReferral },
}

pub enum SessionEndView {
    Done(MessageView),
    Failed(RecurseError),
    NeedsSync,
    NeedAddrs { missing: Seq<Seq<Seq<u8>>>, pending: PendingReferralView },
}

impl View for SessionEnd {
    type V = SessionEndView;

    open spec fn view(&self) -> SessionEndView {
        match self {
            SessionEnd::Done(m) => SessionEndView::Done(m@),
            SessionEnd::Failed(e) => SessionEndView::Failed(*e),
            SessionEnd::NeedsSync => SessionEndView::NeedsSync,
            SessionEnd::NeedAddrs { missing, pending } => SessionEndView::NeedAddrs {
                missing: views(missing@),
                pending: pending@,
            },
        }
    }
}

pub open spec fn end_view(e: Option<SessionEnd>) -> Option<SessionEndView> {
    match e {
        Some(e) => Some(e@),
        None => None,
    }
}

/// What stays the same during a search.
pub open spec fn context_of(r: Recursor, s: SessionView) -> IterationContextView {
    IterationContextView {
        qname: s.qname,
        qtype: s.qtype,
        collect_ds: r.trust_anchors@.len() > 0,
    }
}

fn make_ctx(r: &Recursor, s: &Session) -> (c: IterationContext)
    ensures
        c@ == context_of(*r, s@),
{
    IterationContext { qname: s.qname.clone(), qtype: s.qtype, collect_ds: r.is_validating() }
}

pub open spec fn may_be_asked(r: Recursor) -> spec_fn(SocketAddr) -> bool {
    |s: SocketAddr| r.eligible(s.ip)
}

/// The servers to ask, in order: those of the zone that may be asked.
pub open spec fn ladder_of(
    r: Recursor,
    servers: Seq<SocketAddr>,
    zone: Seq<Seq<u8>>,
    now: u64,
) -> Seq<SocketAddr> {
    r.ordered(servers, zone, now).filter(may_be_asked(r))
}

/// The search with its next query planned, and whether there is one: not where
/// too many were sent, and not where no server may be asked.
pub open spec fn planned(r: Recursor, s: SessionView, now: u64) -> (SessionView, bool) {
    if s.steps >= s.step_cap {
        (s, false)
    } else {
        let ladder = ladder_of(r, s.state.servers, s.state.zone, now);
        (
            SessionView {
                plan: plan_of(s.state, context_of(r, s)),
                ladder,
                at: 0,
                per_server: server_share(r.timeout, ladder.len() as int),
                awaited: None,
                steps: s.steps + 1,
                ..s
            },
            ladder.len() > 0,
        )
    }
}

/// A search that is about to send its first query.
pub open spec fn opened(
    r: Recursor,
    qname: Seq<Seq<u8>>,
    qtype: u16,
    zone: Seq<Seq<u8>>,
    servers: Seq<SocketAddr>,
    now: u64,
) -> SessionView {
    let state = start_state(zone, servers);
    let ladder = ladder_of(r, servers, zone, now);
    SessionView {
        qname,
        qtype,
        state,
        plan: plan_of(
            state,
            IterationContextView { qname, qtype, collect_ds: r.trust_anchors@.len() > 0 },
        ),
        ladder,
        at: 0,
        per_server: server_share(r.timeout, ladder.len() as int),
        awaited: None,
        steps: 1,
        step_cap: r.max_referrals + qname.len() + 2,
    }
}

/// What a step of the search leads to.
#[verifier::opaque]
pub open spec fn after_step(
    r: Recursor,
    s: SessionView,
    state: IterationStateView,
    step: StepView,
    now: u64,
) -> (SessionView, Option<SessionEndView>) {
    let t = SessionView { state, ..s };
    match step {
        StepView::Done(m) => (t, Some(SessionEndView::Done(m))),
        StepView::Failed(e) => (t, Some(SessionEndView::Failed(e))),
        StepView::NeedNsAddrs { missing, pending } => (
            t,
            Some(SessionEndView::NeedAddrs { missing, pending }),
        ),
        StepView::Continue => {
            let p = planned(r, t, now);
            (
                p.0,
                if p.1 {
                    None
                } else {
                    Some(SessionEndView::Failed(RecurseError::NoReachableNs))
                },
            )
        },
    }
}

proof fn lemma_after_step(r: Recursor, s: SessionView, t: SessionView, step: StepView, now: u64)
    requires
        t == (SessionView { state: t.state, ..s }),
    ensures
        after_step(r, t, t.state, step, now) == after_step(r, s, t.state, step, now),
{
    reveal(after_step);
}

/// Where a reply takes the search: the new state, the outcome, and the delegations
/// that are remembered.
#[verifier::opaque]
pub open spec fn stepped(r: Recursor, s: SessionView, resp: MessageView, now_millis: u64) -> (
    IterationStateView,
    StepView,
    Seq<(Seq<Seq<u8>>, crate::cache::DelegationView)>,
) {
    advanced(r, s.state, resp, s.plan, context_of(r, s), now_millis)
}

/// What a reply that was taken does: the server is given credit, and the search
/// takes a step, or has to be done the blocking way where the reply was cut short.
#[verifier::opaque]
pub open spec fn responds(
    before: Recursor,
    after: Recursor,
    s: SessionView,
    resp: MessageView,
    now: u64,
    now_millis: u64,
    t: SessionView,
    end: Option<SessionEndView>,
) -> bool {
    let idle = SessionView { awaited: None, ..s };
    let middle = Recursor { deleg_cache: before.deleg_cache, ..after };
    let step = stepped(middle, idle, resp, now_millis);
    &&& resp.header.truncated ==> t == idle && end == Some(SessionEndView::NeedsSync)
        && after.deleg_cache@ == before.deleg_cache@
    &&& !resp.header.truncated ==> (t, end) == after_step(after, idle, step.0, step.1, now)
        && after.deleg_cache@ == step.2
    &&& after.infra@ == match s.awaited {
        Some(a) => stored(
            before.infra@,
            before.infra.capacity(),
            (a.target.ip, fold_case(s.state.zone)),
            stat_after_success(
                stat_of(before.infra@, a.target.ip, s.state.zone),
                millis_of(
                    (if now >= a.sent_at {
                        now - a.sent_at
                    } else {
                        0
                    }) as u64,
                ),
            ),
        ),
        None => before.infra@,
    }
    &&& after.infra.capacity() == before.infra.capacity()
    &&& after.deleg_cache.capacity() == before.deleg_cache.capacity()
    &&& after == Recursor { infra: after.infra, deleg_cache: after.deleg_cache, ..before }
}

/// What going on with a referral does, once its addresses were looked for.
#[verifier::opaque]
pub open spec fn resumes(
    before: Recursor,
    after: Recursor,
    s: SessionView,
    found: PendingReferralView,
    now: u64,
    now_millis: u64,
    t: SessionView,
    end: Option<SessionEndView>,
) -> bool {
    let step = referral_finished(before, s.state, context_of(before, s), found, now_millis);
    &&& (t, end) == after_step(after, s, step.0, step.1, now)
    &&& after.deleg_cache@ == step.2
    &&& after.deleg_cache.capacity() == before.deleg_cache.capacity()
    &&& after == Recursor { deleg_cache: after.deleg_cache, ..before }
}

/// The reply is taken: it comes from the server that was asked, under the number
/// that was sent, for the question that was sent, down to the letter case where
/// that is random, and it is of use in the zone.
pub open spec fn takes_reply(r: Recursor, s: SessionView, from: SocketAddr, m: MessageView) -> bool {
    s.awaited matches Some(a) && {
        &&& from == a.target
        &&& m.header.id == a.sent.header.id
        &&& r.caps_for_id ==> m.questions == a.sent.questions
        &&& usable(m, a.sent, s.state.zone)
    }
}

/// A failure of the server whose turn it is goes on record.
pub open spec fn blamed(r: Recursor, s: SessionView, target: SocketAddr, now: u64) -> Seq<
    ((crate::addr::IpAddr, Seq<Seq<u8>>), InfraStat),
> {
    stored(
        r.infra@,
        r.infra.capacity(),
        (target.ip, fold_case(s.state.zone)),
        InfraStat { last_fail: Some(now), ..stat_of(r.infra@, target.ip, s.state.zone) },
    )
}

/// The query that goes out for the present plan.
pub open spec fn outgoing(r: Recursor, s: SessionView, id: u16, bits: Seq<[u8; 32]>) -> MessageView {
    let q = query_message(s.plan.mname, s.plan.mtype, true);
    MessageView {
        header: Header { id, ..q.header },
        questions: outgoing_questions(r, q.questions, bits),
        ..q
    }
}

impl Session {
    /// The numbers are within their bounds.
    pub open spec fn valid(&self) -> bool {
        self.at <= self.ladder@.len() && self.steps <= self.step_cap
    }

    /// The server whose turn it is.
    pub fn target(&self) -> (r: Option<SocketAddr>)
        ensures
            r == if self.at < self.ladder@.len() {
                Some(self.ladder@[self.at as int])
            } else {
                None
            },
    {
        if self.at < self.ladder.len() {
            Some(self.ladder[self.at])
        } else {
            None
        }
    }

    /// The query went out to the server whose turn it is. It is waited for no
    /// longer than a server gets, and no longer than the search may last.
    pub fn note_sent(&mut self, sent: Message, end: u64, now: u64)
        requires
            old(self).at < old(self).ladder@.len(),
        ensures
            final(self)@ == (SessionView {
                awaited: Some(
                    AwaitedView {
                        sent: sent@,
                        target: old(self).ladder@[old(self).at as int],
                        sent_at: now,
                        deadline: if now + old(self).per_server <= end {
                            (now + old(self).per_server) as u64
                        } else {
                            end
                        },
                    },
                ),
                ..old(self)@
            }),
            old(self).valid() ==> final(self).valid(),
    {
        let share: u64 = now.saturating_add(self.per_server);
        let deadline: u64 = if share <= end {
            share
        } else {
            end
        };
        let target: SocketAddr = self.ladder[self.at];
        self.awaited = Some(Awaited { sent, target, sent_at: now, deadline });
    }
}

impl Recursor {
    /// Plans the next query.
    pub fn send_next(&self, s: Session, now: u64) -> (r: (Session, bool))
        requires
            s.valid(),
        ensures
            (r.0@, r.1) == planned(*self, s@, now),
            r.0.valid(),
    {
        let mut s = s;
        if s.steps >= s.step_cap {
            return (s, false);
        }
        let ghost before = s@;
        let ctx = make_ctx(self, &s);
        let plan = s.state.next_query(&ctx);
        let ordered = self.order_by_infra(&s.state.servers, &s.state.zone, now);
        assert(views(ordered@) =~= ordered@);
        let ladder = pick(
            &ordered,
            |x: &SocketAddr| -> (b: bool)
                ensures
                    b == may_be_asked(*self)(x@)
                { self.server_eligible(x.ip) },
            Ghost(may_be_asked(*self)),
        );
        assert(views(ladder@) =~= ladder@);
        let n: u64 = if ladder.len() < 1 {
            1
        } else if ladder.len() > 4 {
            4
        } else {
            ladder.len() as u64
        };
        let share: u64 = self.timeout / n;
        s.per_server = if share < MIN_SERVER_NANOS {
            MIN_SERVER_NANOS
        } else {
            share
        };
        s.plan = plan;
        s.ladder = ladder;
        s.at = 0;
        s.awaited = None;
        s.steps = s.steps + 1;
        let any: bool = s.ladder.len() > 0;
        (s, any)
    }

    /// Opens a search in a zone with its servers. None where none of them may be
    /// asked.
    pub fn start_at(
        &self,
        qname: Name,
        qtype: u16,
        zone: Name,
        servers: Vec<SocketAddr>,
        now: u64,
    ) -> (r: Option<Session>)
        requires
            self.max_referrals + qname@.len() + 2 <= usize::MAX,
        ensures
            r is Some <==> ladder_of(*self, servers@, zone@, now).len() > 0,
            r matches Some(s) ==> s@ == opened(*self, qname@, qtype, zone@, servers@, now)
                && s.valid(),
    {
        let step_cap: usize = self.max_referrals + qname.num_labels() + 2;
        let state = IterationState::start(zone, servers);
        let plan = NextQuery { target: 0, is_final: false, mname: Name::root(), mtype: qtype };
        let s = Session {
            qname,
            qtype,
            state,
            plan,
            ladder: Vec::new(),
            at: 0,
            per_server: 0,
            awaited: None,
            steps: 0,
            step_cap,
        };
        let (t, any) = self.send_next(s, now);
        if any {
            Some(t)
        } else {
            None
        }
    }

    /// The query for the server whose turn it is.
    pub fn fire_attempt(&self, s: &Session, id: u16, bits: &Vec<[u8; 32]>) -> (r: Message)
        requires
            bits@.len() >= 1,
        ensures
            r@ == outgoing(*self, s@, id, bits@),
    {
        let mut q = make_query(&s.plan.mname, s.plan.mtype, true);
        assert(q@.questions.len() == q.questions@.len());
        q.header.id = id;
        self.apply_outgoing_case(&mut q, bits);
        q
    }

    /// The query could not be sent. The server is blamed, and the next one has its
    /// turn; false where there is none.
    pub fn note_send_failed(&mut self, s: Session, now: u64) -> (r: (Session, bool))
        requires
            s.valid(),
            s.at < s.ladder@.len(),
        ensures
            r.0@ == (SessionView { at: s@.at + 1, ..s@ }),
            r.1 == (s@.at + 1 < s@.ladder.len()),
            r.0.valid(),
            final(self).infra@ == blamed(*old(self), s@, s@.ladder[s@.at], now),
            *final(self) == (Recursor { infra: final(self).infra, ..*old(self) }),
            final(self).same_room(*old(self)),
    {
        let mut s = s;
        let target: SocketAddr = s.ladder[s.at];
        self.infra_fail(target.ip, &s.state.zone, now);
        assert(s.at < s.ladder.len());
        s.at = s.at + 1;
        let more: bool = s.at < s.ladder.len();
        (s, more)
    }

    /// No reply came in time. The server is blamed, and the next one has its turn;
    /// false where there is none, or where nothing was waited for.
    pub fn on_exchange_timeout(&mut self, s: Session, now: u64) -> (r: (Session, bool))
        requires
            s.valid(),
        ensures
            match s@.awaited {
                Some(a) => {
                    &&& r.0@ == (SessionView {
                        awaited: None,
                        at: if s@.at < s@.ladder.len() {
                            s@.at + 1
                        } else {
                            s@.at
                        },
                        ..s@
                    })
                    &&& r.1 == (s@.at + 1 < s@.ladder.len())
                    &&& final(self).infra@ == blamed(*old(self), s@, a.target, now)
                },
                None => !r.1 && r.0@ == s@ && final(self).infra@ == old(self).infra@,
            },
            r.0.valid(),
            *final(self) == (Recursor { infra: final(self).infra, ..*old(self) }),
            final(self).same_room(*old(self)),
    {
        let mut s = s;
        let waited = s.awaited.take();
        match waited {
            Some(a) => {
                self.infra_fail(a.target.ip, &s.state.zone, now);
                if s.at < s.ladder.len() {
                    s.at = s.at + 1;
                }
                let more: bool = s.at < s.ladder.len();
                (s, more)
            },
            None => (s, false),
        }
    }

    /// Whether a reply is taken. This is what keeps forged replies out.
    pub fn try_recv(&self, s: &Session, from: SocketAddr, reply: &Message) -> (r: bool)
        ensures
            r == takes_reply(*self, s@, from, reply@),
    {
        match &s.awaited {
            None => false,
            Some(a) => from == a.target && reply.header.id == a.sent.header.id && (
            !self.caps_for_id || questions_case_exact(&reply.questions, &a.sent.questions))
                && response_usable_for_iteration(reply, &a.sent, &s.state.zone),
        }
    }

    /// Goes one step on with a reply that was taken. One that was cut short cannot
    /// be asked for again here.
    #[verifier::spinoff_prover]
    pub fn on_response(&mut self, s: Session, resp: Message, now: u64, now_millis: u64) -> (r: (
        Session,
        Option<SessionEnd>,
    ))
        requires
            s.valid(),
        ensures
            responds(*old(self), *final(self), s@, resp@, now, now_millis, r.0@, end_view(r.1)),
            r.0.valid(),
            final(self).same_room(*old(self)),
    {
        let mut s = s;
        let waited = s.awaited.take();
        if let Some(a) = waited {
            self.infra_success(a.target.ip, &s.state.zone, now.saturating_sub(a.sent_at));
        }
        if resp.header.truncated {
            proof {
                reveal(responds);
            }
            return (s, Some(SessionEnd::NeedsSync));
        }
        let ghost middle = *self;
        let r = self.advance_session(s, resp, now, now_millis);
        proof {
            assert(middle == Recursor { deleg_cache: old(self).deleg_cache, ..*self });
            reveal(responds);
        }
        r
    }

    #[verifier::spinoff_prover]
    fn advance_session(&mut self, s: Session, resp: Message, now: u64, now_millis: u64) -> (r: (
        Session,
        Option<SessionEnd>,
    ))
        requires
            s.valid(),
        ensures
            ({
                let step = stepped(*old(self), s@, resp@, now_millis);
                &&& (r.0@, end_view(r.1)) == after_step(*final(self), s@, step.0, step.1, now)
                &&& final(self).deleg_cache@ == step.2
            }),
            r.0.valid(),
            final(self).deleg_cache.capacity() == old(self).deleg_cache.capacity(),
            *final(self) == (Recursor { deleg_cache: final(self).deleg_cache, ..*old(self) }),
    {
        let ghost before = s@;
        let ctx = make_ctx(self, &s);
        let Session {
            qname,
            qtype,
            state,
            plan,
            ladder,
            at,
            per_server,
            awaited,
            steps,
            step_cap,
        } = s;
        let mut state = state;
        let outcome = self.advance(&mut state, resp, &plan, &ctx, now_millis);
        proof {
            reveal(stepped);
        }
        let t = Session {
            qname,
            qtype,
            state,
            plan,
            ladder,
            at,
            per_server,
            awaited,
            steps,
            step_cap,
        };
        proof {
            lemma_after_step(*self, before, t@, outcome@, now);
        }
        self.follow(t, outcome, now)
    }

    fn follow(&self, s: Session, outcome: StepOutcome, now: u64) -> (r: (
        Session,
        Option<SessionEnd>,
    ))
        requires
            s.valid(),
        ensures
            (r.0@, end_view(r.1)) == after_step(*self, s@, s@.state, outcome@, now),
            r.0.valid(),
    {
        proof {
            reveal(after_step);
        }
        match outcome {
            StepOutcome::Done(m) => (s, Some(SessionEnd::Done(m))),
            StepOutcome::Failed(e) => (s, Some(SessionEnd::Failed(e))),
            StepOutcome::NeedNsAddrs { missing, pending } => (
                s,
                Some(SessionEnd::NeedAddrs { missing, pending }),
            ),
            StepOutcome::Continue => {
                let (t, more) = self.send_next(s, now);
                if more {
                    (t, None)
                } else {
                    (t, Some(SessionEnd::Failed(RecurseError::NoReachableNs)))
                }
            },
        }
    }

    /// Goes on with a referral once the addresses of its servers were looked for.
    pub fn resume_with_addrs(
        &mut self,
        s: Session,
        pending: PendingReferral,
        addrs: Vec<SocketAddr>,
        addr_ttl: Option<u32>,
        now: u64,
        now_millis: u64,
    ) -> (r: (Session, Option<SessionEnd>))
        requires
            s.valid(),
        ensures
            resumes(
                *old(self),
                *final(self),
                s@,
                PendingReferralView {
                    addrs: pending@.addrs + addrs@,
                    address_ttl: min_ttl(pending@.address_ttl, addr_ttl),
                    ..pending@
                },
                now,
                now_millis,
                r.0@,
                end_view(r.1),
            ),
            r.0.valid(),
            final(self).same_room(*old(self)),
    {
        proof {
            reveal(resumes);
        }
        let ghost before = s@;
        let ctx = make_ctx(self, &s);
        let mut pending = pending;
        let mut addrs = addrs;
        pending.addrs.append(&mut addrs);
        pending.address_ttl = min_optional_ttl(pending.address_ttl, addr_ttl);
        let Session {
            qname,
            qtype,
            state,
            plan,
            ladder,
            at,
            per_server,
            awaited,
            steps,
            step_cap,
        } = s;
        let mut state = state;
        let outcome = self.finish_referral(&mut state, &ctx, pending, now_millis);
        let t = Session {
            qname,
            qtype,
            state,
            plan,
            ladder,
            at,
            per_server,
            awaited,
            steps,
            step_cap,
        };
        proof {
            lemma_after_step(*self, before, t@, outcome@, now);
        }
        self.follow(t, outcome, now)
    }
}

/// Every query of a search counts against its bound, so that a search among zones
/// that refer to each other ends.
pub proof fn law_a_search_takes_bounded_steps(r: Recursor, s: SessionView, now: u64)
    requires
        s.steps <= s.step_cap,
    ensures
        planned(r, s, now).0.steps <= s.step_cap,
        planned(r, s, now).0.step_cap == s.step_cap,
        planned(r, s, now).1 ==> planned(r, s, now).0.steps == s.steps + 1,
        s.steps == s.step_cap ==> !planned(r, s, now).1,
{
}

/// A search judges a reply as a walk that stands in the same place does: either way
/// of searching takes the same step.
pub proof fn law_a_search_steps_like_a_walk(
    r: Recursor,
    s: SessionView,
    walk: IterationView,
    resp: MessageView,
    now_millis: u64,
)
    requires
        walk.state == s.state,
        walk.ctx == (IterationContextView {
            qname: s.qname,
            qtype: s.qtype,
            collect_ds: r.validates(false),
        }),
    ensures
        s.plan == plan_of(s.state, context_of(r, s)) ==> s.plan == plan_of(walk.state, walk.ctx),
        stepped(r, s, resp, now_millis) == advanced(
            r,
            walk.state,
            resp,
            s.plan,
            walk.ctx,
            now_millis,
        ),
{
    reveal(stepped);
}

/// Only servers that may be asked are asked.
pub proof fn law_only_eligible_servers_are_asked(r: Recursor, s: SessionView, now: u64, k: int)
    requires
        s.steps < s.step_cap,
        0 <= k < planned(r, s, now).0.ladder.len(),
    ensures
        r.eligible(planned(r, s, now).0.ladder[k].ip),
{
    let all = r.ordered(s.state.servers, s.state.zone, now);
    crate::seqs::lemma_filter_holds(all, may_be_asked(r));
    assert(may_be_asked(r)(all.filter(may_be_asked(r))[k]));
}

/// A reply with another number, from another address, or for another question is
/// not taken; where the letter case is random, neither is one in another case.
pub proof fn law_forged_replies_are_not_taken(
    r: Recursor,
    s: SessionView,
    from: SocketAddr,
    m: MessageView,
)
    requires
        s.awaited matches Some(a) ==> from != a.target || m.header.id != a.sent.header.id
            || !same_questions(m.questions, a.sent.questions) || (r.caps_for_id && m.questions
            != a.sent.questions),
    ensures
        !takes_reply(r, s, from, m),
{
}

/// A reply that comes from the server asked, under the number and with the very question
/// that was sent, and is of use, is taken. Where letters are not drawn, the question may
/// come back in any letter case.
pub proof fn law_genuine_replies_are_taken(
    r: Recursor,
    s: SessionView,
    from: SocketAddr,
    m: MessageView,
    a: AwaitedView,
)
    requires
        s.awaited == Some(a),
        from == a.target,
        m.header.id == a.sent.header.id,
        usable(m, a.sent, s.state.zone),
        r.caps_for_id ==> m.questions == a.sent.questions,
    ensures
        takes_reply(r, s, from, m),
{
}

/// Nothing is taken where nothing is awaited, nor what is of no use to the search.
pub proof fn law_useless_replies_are_not_taken(
    r: Recursor,
    s: SessionView,
    from: SocketAddr,
    m: MessageView,
)
    ensures
        s.awaited is None ==> !takes_reply(r, s, from, m),
        takes_reply(r, s, from, m) ==> usable(m, s.awaited->0.sent, s.state.zone) && from
            == s.awaited->0.target,
{
}

/// A server is on the ladder exactly if it is among those in order and may be asked. A
/// search with a step left goes on wherever there is such a server: it asks for what is
/// due, begins with the first of them, and counts the step.
pub proof fn law_a_search_goes_on_while_it_can(
    r: Recursor,
    s: SessionView,
    now: u64,
    a: SocketAddr,
)
    ensures
        ladder_of(r, s.state.servers, s.state.zone, now).contains(a) <==> r.ordered(
            s.state.servers,
            s.state.zone,
            now,
        ).contains(a) && r.eligible(a.ip),
        ({
            let p = planned(r, s, now);
            &&& s.steps < s.step_cap && ladder_of(r, s.state.servers, s.state.zone, now).contains(a)
                ==> p.1
            &&& s.steps < s.step_cap ==> {
                &&& p.0.ladder == ladder_of(r, s.state.servers, s.state.zone, now)
                &&& p.0.at == 0 && p.0.awaited is None && p.0.steps == s.steps + 1
                &&& p.0.state == s.state && p.0.qname == s.qname && p.0.qtype == s.qtype
                &&& p.0.plan == plan_of(
                    s.state,
                    IterationContextView {
                        qname: s.qname,
                        qtype: s.qtype,
                        collect_ds: r.trust_anchors@.len() > 0,
                    },
                )
                &&& p.0.per_server == server_share(r.timeout, p.0.ladder.len() as int)
            }
            &&& s.steps >= s.step_cap ==> !p.1 && p.0 == s
        }),
{
    let o = r.ordered(s.state.servers, s.state.zone, now);
    crate::seqs::lemma_filter_members(o, may_be_asked(r), a);
}

/// A search opens in its zone with the first query planned, and may plan as many as its
/// name has labels and referrals are allowed, and two more.
pub proof fn law_how_a_search_opens(
    r: Recursor,
    qname: Seq<Seq<u8>>,
    qtype: u16,
    zone: Seq<Seq<u8>>,
    servers: Seq<SocketAddr>,
    now: u64,
)
    ensures
        ({
            let s = opened(r, qname, qtype, zone, servers, now);
            &&& s.qname == qname && s.qtype == qtype && s.state == start_state(zone, servers)
            &&& s.plan == plan_of(s.state, context_of(r, s))
            &&& s.ladder == ladder_of(r, servers, zone, now) && s.at == 0 && s.awaited is None
            &&& s.steps == 1 && s.step_cap == r.max_referrals + qname.len() + 2
            &&& s.per_server == server_share(r.timeout, s.ladder.len() as int)
        }),
{
}

/// What a step leads to: an end where the walk ends, fails or needs addresses, with the
/// same outcome; else the next query, and a failure only where none can be planned.
pub proof fn law_what_a_step_leads_to(
    r: Recursor,
    s: SessionView,
    state: IterationStateView,
    step: StepView,
    now: u64,
)
    ensures
        ({
            let a = after_step(r, s, state, step, now);
            let moved = SessionView { state, ..s };
            match step {
                StepView::Done(m) => a == (moved, Some(SessionEndView::Done(m))),
                StepView::Failed(e) => a == (moved, Some(SessionEndView::Failed(e))),
                StepView::NeedNsAddrs { missing, pending } => a == (
                    moved,
                    Some(SessionEndView::NeedAddrs { missing, pending }),
                ),
                StepView::Continue => {
                    &&& a.0.state == state
                    &&& planned(r, moved, now).1 ==> a.1 is None
                    &&& !planned(r, moved, now).1 ==> a.1 == Some(
                        SessionEndView::Failed(RecurseError::NoReachableNs),
                    )
                },
            }
        }),
{
    reveal(after_step);
}

/// What goes out for a search: one question, for the name and type planned, under the
/// number drawn, with room for signatures asked for.
pub proof fn law_what_goes_out(r: Recursor, s: SessionView, id: u16, bits: Seq<[u8; 32]>)
    ensures
        ({
            let m = outgoing(r, s, id, bits);
            &&& m.header.id == id && !m.header.response && !m.header.recursion_desired
            &&& m.questions.len() == 1
            &&& crate::name::same_name(m.questions[0].name, s.plan.mname)
            &&& m.questions[0].qtype == s.plan.mtype && m.questions[0].qclass == 1
            &&& crate::message::first_edns(m.additionals) matches Some(e) && e.dnssec_ok
            &&& m.answers.len() == 0 && m.authorities.len() == 0
        }),
{
    let q = query_message(s.plan.mname, s.plan.mtype, true);
    crate::query::law_what_a_query_holds(s.plan.mname, s.plan.mtype, true);
    crate::search::law_a_question_goes_out_as_it_is(r, q.questions, bits, 0);
}

/// A response cut short is left to the blocking way. Any other takes the step that the
/// walk takes, and in both cases the server is credited with the time it took, and no
/// longer blamed.
pub proof fn law_what_a_response_does(
    before: Recursor,
    after: Recursor,
    s: SessionView,
    resp: MessageView,
    now: u64,
    now_millis: u64,
    t: SessionView,
    end: Option<SessionEndView>,
    a: AwaitedView,
)
    requires
        responds(before, after, s, resp, now, now_millis, t, end),
        s.awaited == Some(a),
        crate::lru::keys_distinct(before.infra@),
        before.infra@.len() <= before.infra.capacity(),
        before.infra.capacity() >= 1,
    ensures
        resp.header.truncated ==> end == Some(SessionEndView::NeedsSync),
        ({
            let st = stat_of(after.infra@, a.target.ip, s.state.zone);
            st.last_fail is None && st.last_protocol_error is None && st.srtt_ms is Some
        }),
        ({
            let step = advanced(
                Recursor { deleg_cache: before.deleg_cache, ..after },
                s.state,
                resp,
                s.plan,
                context_of(before, s),
                now_millis,
            );
            !resp.header.truncated ==> {
                &&& step.1 matches StepView::Done(m) ==> end == Some(SessionEndView::Done(m))
                &&& step.1 matches StepView::Failed(e) ==> end == Some(SessionEndView::Failed(e))
                &&& step.1 matches StepView::NeedNsAddrs { missing, pending } ==> end == Some(
                    SessionEndView::NeedAddrs { missing, pending },
                )
                &&& t.state == step.0
                &&& after.deleg_cache@ == step.2
            }
        }),
{
    reveal(responds);
    reveal(stepped);
    let idle = SessionView { awaited: None, ..s };
    let middle = Recursor { deleg_cache: before.deleg_cache, ..after };
    let step = stepped(middle, idle, resp, now_millis);
    assert(context_of(middle, idle) == context_of(before, s));
    law_what_a_step_leads_to(after, idle, step.0, step.1, now);
    crate::lru::law_store_then_find(
        before.infra@,
        before.infra.capacity(),
        (a.target.ip, fold_case(s.state.zone)),
        stat_after_success(
            stat_of(before.infra@, a.target.ip, s.state.zone),
            millis_of(
                (if now >= a.sent_at {
                    now - a.sent_at
                } else {
                    0
                }) as u64,
            ),
        ),
    );
}

/// A server that is blamed is on its way to being asked last: it cools down from now on.
pub proof fn law_a_blamed_server_cools_down(
    r: Recursor,
    s: SessionView,
    target: SocketAddr,
    now: u64,
)
    requires
        crate::lru::keys_distinct(r.infra@),
        r.infra@.len() <= r.infra.capacity(),
        r.infra.capacity() >= 1,
    ensures
        crate::infra::cooling(stat_of(blamed(r, s, target, now), target.ip, s.state.zone), now),
        stat_of(blamed(r, s, target, now), target.ip, s.state.zone).srtt_ms == stat_of(
            r.infra@,
            target.ip,
            s.state.zone,
        ).srtt_ms,
{
    crate::lru::law_store_then_find(
        r.infra@,
        r.infra.capacity(),
        (target.ip, fold_case(s.state.zone)),
        InfraStat { last_fail: Some(now), ..stat_of(r.infra@, target.ip, s.state.zone) },
    );
}

/// Where no server may be asked, no query is planned.
pub proof fn law_nobody_to_ask(r: Recursor, s: SessionView, now: u64)
    requires
        forall|a: SocketAddr|
            r.ordered(s.state.servers, s.state.zone, now).contains(a) ==> !#[trigger] r.eligible(
                a.ip,
            ),
    ensures
        !planned(r, s, now).1,
{
    let o = r.ordered(s.state.servers, s.state.zone, now);
    let ladder = ladder_of(r, s.state.servers, s.state.zone, now);
    if ladder.len() > 0 {
        assert(ladder.contains(ladder[0]));
        crate::seqs::lemma_filter_members(o, may_be_asked(r), ladder[0]);
        assert(!r.eligible(ladder[0].ip));
    }
}

/// A response changes what is known of the server and of the delegations, and nothing else
/// of the resolver; going on with a referral changes the delegations alone.
pub proof fn law_what_a_response_leaves_alone(
    before: Recursor,
    after: Recursor,
    s: SessionView,
    resp: MessageView,
    found: PendingReferralView,
    now: u64,
    now_millis: u64,
    t: SessionView,
    end: Option<SessionEndView>,
)
    ensures
        responds(before, after, s, resp, now, now_millis, t, end) || resumes(
            before,
            after,
            s,
            found,
            now,
            now_millis,
            t,
            end,
        ) ==> {
            &&& after.roots == before.roots && after.trust_anchors == before.trust_anchors
            &&& after.anchor_generation == before.anchor_generation
            &&& after.timeout == before.timeout && after.port == before.port
            &&& after.strict == before.strict && after.permissive == before.permissive
            &&& after.deny_servers == before.deny_servers
            &&& after.allow_servers == before.allow_servers
            &&& after.ns_addr_cache == before.ns_addr_cache
            &&& after.dnskey_cache == before.dnskey_cache
            &&& after.validated_keys == before.validated_keys
            &&& after.infra.capacity() == before.infra.capacity()
            &&& after.deleg_cache.capacity() == before.deleg_cache.capacity()
        },
        resumes(before, after, s, found, now, now_millis, t, end) ==> after.infra == before.infra,
        s.awaited is None && responds(before, after, s, resp, now, now_millis, t, end)
            ==> after.infra@ == before.infra@,
{
    reveal(responds);
    reveal(resumes);
}

/// A referral whose addresses were looked for leads where finishing it leads.
pub proof fn law_where_a_completed_referral_leads(
    before: Recursor,
    after: Recursor,
    s: SessionView,
    found: PendingReferralView,
    now: u64,
    now_millis: u64,
    t: SessionView,
    end: Option<SessionEndView>,
)
    requires
        resumes(before, after, s, found, now, now_millis, t, end),
    ensures
        ({
            let step = referral_finished(before, s.state, context_of(before, s), found, now_millis);
            &&& step.1 matches StepView::Done(m) ==> end == Some(SessionEndView::Done(m))
            &&& step.1 matches StepView::Failed(e) ==> end == Some(SessionEndView::Failed(e))
            &&& step.1 matches StepView::NeedNsAddrs { missing, pending } ==> end == Some(
                SessionEndView::NeedAddrs { missing, pending },
            )
            &&& t.state == step.0
            &&& after.deleg_cache@ == step.2
        }),
{
    reveal(resumes);
    let step = referral_finished(before, s.state, context_of(before, s), found, now_millis);
    law_what_a_step_leads_to(after, s, step.0, step.1, now);
}

} // verus!
