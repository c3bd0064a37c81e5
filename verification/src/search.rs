//! The parts of a search that wait for the network, as steps: asking one
//! server after the other, walking down the zones, and finding addresses of
//! name servers.

use vstd::prelude::*;

use crate::addr::SocketAddr;
use crate::iterate::{
    advanced, plan_of, referral_finished, start_state, IterationContext, IterationContextView,
    IterationState, IterationStateView, NextQuery, PendingReferral, PendingReferralView,
    StepOutcome, StepView,
};
use crate::message::{Message, MessageView, Question, QuestionView};
use crate::name::{cased_name, fold_case, Name};
use crate::query::{lowercase_name, randomize_name_case};
use crate::recursor::{Budget, RecurseError, Recursor};
use crate::response::{
    min_optional_ttl, min_ttl, questions_case_exact, response_usable_for_iteration, usable,
};
use crate::seqs::{lemma_views_push, views, Replicate};

verus! {

// ---- asking servers ----

/// The shortest time that a server is given: 300 milliseconds.
pub const MIN_SERVER_NANOS: u64 = 300_000_000;

/// The name as it goes out under the resolver's settings.
pub open spec fn outgoing_name(r: Recursor, name: Seq<Seq<u8>>, bits: Seq<u8>) -> Seq<Seq<u8>> {
    if r.caps_for_id {
        cased_name(name, bits)
    } else if r.lowercase_outgoing {
        fold_case(name)
    } else {
        name
    }
}

pub open spec fn outgoing_questions(
    r: Recursor,
    q: Seq<QuestionView>,
    bits: Seq<[u8; 32]>,
) -> Seq<QuestionView> {
    Seq::new(
        q.len(),
        |i: int| QuestionView { name: outgoing_name(r, q[i].name, bits[i]@), ..q[i] },
    )
}

/// One round of asking the servers of a zone, one after the other.
pub struct Exchange {
    pub sent: Message,
    pub zone: Name,
    pub queue: Vec<SocketAddr>,
    pub next: usize,
    pub deadline: u64,
    pub per_server: u64,
    pub fallback: Option<Message>,
}

pub struct ExchangeView {
    pub sent: MessageView,
    pub zone: Seq<Seq<u8>>,
    pub queue: Seq<SocketAddr>,
    pub next: int,
    pub deadline: u64,
    pub per_server: u64,
    pub fallback: Option<MessageView>,
}

pub open spec fn message_view(m: Option<Message>) -> Option<MessageView> {
    match m {
        Some(m) => Some(m@),
        None => None,
    }
}

impl View for Exchange {
    type V = ExchangeView;

    open spec fn view(&self) -> ExchangeView {
        ExchangeView {
            sent: self.sent@,
            zone: self.zone@,
            queue: self.queue@,
            next: self.next as int,
            deadline: self.deadline,
            per_server: self.per_server,
            fallback: message_view(self.fallback),
        }
    }
}

/// What to do next in an exchange.
#[derive(Clone, Copy, PartialEq, Eq, Structural, Debug)]
pub enum Attempt {
    /// Ask this server, and wait no longer than this.
    Send { server: SocketAddr, timeout: u64 },
    /// No server is left, or no time.
    Over,
}

/// The part of the time limit that one of `n` servers gets.
pub open spec fn server_share(timeout: u64, n: int) -> u64 {
    let d = if n < 1 {
        1
    } else if n > 4 {
        4
    } else {
        n
    };
    if timeout as int / d < MIN_SERVER_NANOS {
        MIN_SERVER_NANOS
    } else {
        (timeout as int / d) as u64
    }
}

/// The end of an exchange that starts now: the question's own end, or the end
/// of a full time limit from now, whichever is first.
pub open spec fn exchange_end(r: Recursor, deadline: u64, now: u64) -> u64 {
    if now + r.timeout > u64::MAX || deadline <= now + r.timeout {
        deadline
    } else {
        (now + r.timeout) as u64
    }
}

pub open spec fn any_eligible(r: Recursor, servers: Seq<SocketAddr>) -> bool {
    exists|i: int| 0 <= i < servers.len() && r.eligible((#[trigger] servers[i]).ip)
}

/// The place of the next server that may be asked; the length where there is
/// none.
pub open spec fn next_eligible(r: Recursor, queue: Seq<SocketAddr>, from: int) -> int
    decreases queue.len() - from,
{
    if from >= queue.len() {
        queue.len() as int
    } else if r.eligible(queue[from].ip) {
        from
    } else {
        next_eligible(r, queue, from + 1)
    }
}

impl Recursor {
    /// Writes the names of outgoing questions as the settings ask: in random
    /// case, in lower case, or as they are.
    pub fn apply_outgoing_case(&self, query: &mut Message, bits: &Vec<[u8; 32]>)
        requires
            bits.len() >= old(query).questions.len(),
        ensures
            final(query)@ == (MessageView {
                questions: outgoing_questions(*self, old(query)@.questions, bits@),
                ..old(query)@
            }),
    {
        let ghost before = query@;
        let ghost want = outgoing_questions(*self, query@.questions, bits@);
        let mut out: Vec<Question> = Vec::new();
        let mut i: usize = 0;
        while i < query.questions.len()
            invariant
                i <= query.questions.len(),
                bits.len() >= query.questions.len(),
                query@ == before,
                want == outgoing_questions(*self, before.questions, bits@),
                views(out@) =~= want.take(i as int),
            decreases query.questions.len() - i,
        {
            let q = &query.questions[i];
            let name = if self.caps_for_id {
                randomize_name_case(&q.name, &bits[i])
            } else if self.lowercase_outgoing {
                lowercase_name(&q.name)
            } else {
                q.name.clone()
            };
            let ghost done = out@;
            let nq = Question { name, qtype: q.qtype, qclass: q.qclass };
            proof {
                lemma_views_push(done, nq);
                assert(before.questions[i as int] == query.questions@[i as int]@);
                assert(want.take(i + 1) =~= want.take(i as int).push(nq@));
            }
            out.push(nq);
            i = i + 1;
        }
        assert(views(out@) =~= want);
        query.questions = out;
    }

    /// Prepares to ask the servers of `zone`. Where none of them may be asked,
    /// that is not a failure of the network.
    pub fn begin_exchange(
        &self,
        servers: &Vec<SocketAddr>,
        query: &Message,
        zone: &Name,
        deadline: u64,
        now: u64,
        bits: &Vec<[u8; 32]>,
    ) -> (r: Result<Exchange, RecurseError>)
        requires
            bits.len() >= query.questions.len(),
        ensures
            r is Ok <==> any_eligible(*self, servers@),
            r matches Err(e) ==> e == RecurseError::NoReachableNs,
            r matches Ok(x) ==> x@ == (ExchangeView {
                sent: MessageView {
                    questions: outgoing_questions(*self, query@.questions, bits@),
                    ..query@
                },
                zone: zone@,
                queue: self.ordered(servers@, zone@, now),
                next: 0,
                deadline: exchange_end(*self, deadline, now),
                per_server: server_share(
                    self.timeout,
                    self.ordered(servers@, zone@, now).len() as int,
                ),
                fallback: None,
            }),
    {
        let mut i: usize = 0;
        let mut found: bool = false;
        while i < servers.len()
            invariant
                i <= servers.len(),
                found == exists|k: int| 0 <= k < i && self.eligible((#[trigger] servers@[k]).ip),
            decreases servers.len() - i,
        {
            if self.server_eligible(servers[i].ip) {
                assert(self.eligible(servers@[i as int].ip));
                found = true;
            }
            i = i + 1;
        }
        if !found {
            return Err(RecurseError::NoReachableNs);
        }
        let mut sent = query.replicate();
        assert(sent@.questions.len() == sent.questions.len());
        assert(query@.questions.len() == query.questions.len());
        self.apply_outgoing_case(&mut sent, bits);
        let queue = self.order_by_infra(servers, zone, now);
        let end: u64 = match now.checked_add(self.timeout) {
            Some(t) => if deadline <= t {
                deadline
            } else {
                t
            },
            None => deadline,
        };
        let n: u64 = if queue.len() < 1 {
            1
        } else if queue.len() > 4 {
            4
        } else {
            queue.len() as u64
        };
        let share: u64 = self.timeout / n;
        let per_server: u64 = if share < MIN_SERVER_NANOS {
            MIN_SERVER_NANOS
        } else {
            share
        };
        Ok(
            Exchange {
                sent,
                zone: zone.clone(),
                queue,
                next: 0,
                deadline: end,
                per_server,
                fallback: None,
            },
        )
    }

    /// The next server to ask, with its share of the time that is left.
    pub fn next_attempt(&self, x: &mut Exchange, now: u64) -> (r: Attempt)
        requires
            old(x).next <= old(x).queue.len(),
        ensures
            ({
                let at = next_eligible(*self, old(x)@.queue, old(x)@.next);
                let left = if old(x).deadline > now {
                    old(x).deadline - now
                } else {
                    0
                };
                if at < old(x)@.queue.len() && left > 0 {
                    &&& r == (Attempt::Send {
                        server: old(x)@.queue[at],
                        timeout: (if old(x).per_server as int <= left {
                            old(x).per_server as int
                        } else {
                            left
                        }) as u64,
                    })
                    &&& final(x)@ == (ExchangeView { next: at + 1, ..old(x)@ })
                } else {
                    &&& r is Over
                    &&& final(x)@ == (ExchangeView { next: old(x)@.queue.len() as int, ..old(x)@ })
                }
            }),
    {
        let ghost start = x@;
        while x.next < x.queue.len()
            invariant
                x.next <= x.queue.len(),
                start == old(x)@,
                x@ == (ExchangeView { next: x@.next, ..start }),
                next_eligible(*self, start.queue, start.next) == next_eligible(
                    *self,
                    start.queue,
                    x@.next,
                ),
                x.deadline == start.deadline,
                x.per_server == start.per_server,
            decreases x.queue.len() - x.next,
        {
            let s: SocketAddr = x.queue[x.next];
            if self.server_eligible(s.ip) {
                let left: u64 = x.deadline.saturating_sub(now);
                if left == 0 {
                    x.next = x.queue.len();
                    return Attempt::Over;
                }
                let timeout: u64 = if x.per_server <= left {
                    x.per_server
                } else {
                    left
                };
                x.next = x.next + 1;
                return Attempt::Send { server: s, timeout };
            }
            x.next = x.next + 1;
        }
        Attempt::Over
    }

    /// Takes in what came of asking `server`: the response, or `None` where
    /// there was none. A response that can be used is handed back. Under
    /// random letter case, one that does not repeat the question exactly
    /// counts as a failure; one that does not help is kept as a last resort.
    pub fn on_reply(
        &mut self,
        x: &mut Exchange,
        server: SocketAddr,
        reply: Option<Message>,
        started: u64,
        now: u64,
    ) -> (r: Option<Message>)
        ensures
            ({
                let ip = server.ip;
                let zone = old(x)@.zone;
                let before = crate::infra::stat_of(old(self).infra@, ip, zone);
                match reply {
                    Some(m) => if old(self).caps_for_id && m@.questions != old(x)@.sent.questions {
                        &&& r is None
                        &&& final(x)@ == old(x)@
                        &&& final(self).infra@ == crate::lru::stored(
                            old(self).infra@,
                            old(self).infra.capacity(),
                            (ip, fold_case(zone)),
                            crate::infra::InfraStat { last_fail: Some(now), ..before },
                        )
                    } else if usable(m@, old(x)@.sent, zone) {
                        &&& message_view(r) == Some(m@)
                        &&& final(x)@ == old(x)@
                        &&& final(self).infra@ == crate::lru::stored(
                            old(self).infra@,
                            old(self).infra.capacity(),
                            (ip, fold_case(zone)),
                            crate::infra::stat_after_success(
                                before,
                                crate::infra::millis_of(
                                    (if now >= started {
                                        now - started
                                    } else {
                                        0
                                    }) as u64,
                                ),
                            ),
                        )
                    } else {
                        &&& r is None
                        &&& final(x)@ == (ExchangeView { fallback: Some(m@), ..old(x)@ })
                        &&& final(self).infra@ == crate::lru::stored(
                            old(self).infra@,
                            old(self).infra.capacity(),
                            (ip, fold_case(zone)),
                            crate::infra::InfraStat { last_protocol_error: Some(now), ..before },
                        )
                    },
                    None => {
                        &&& r is None
                        &&& final(x)@ == old(x)@
                        &&& final(self).infra@ == crate::lru::stored(
                            old(self).infra@,
                            old(self).infra.capacity(),
                            (ip, fold_case(zone)),
                            crate::infra::InfraStat { last_fail: Some(now), ..before },
                        )
                    },
                }
            }),
            final(self).infra.capacity() == old(self).infra.capacity(),
            *final(self) == (Recursor { infra: final(self).infra, ..*old(self) }),
    {
        match reply {
            Some(m) => {
                if self.caps_for_id && !questions_case_exact(&m.questions, &x.sent.questions) {
                    self.infra_fail(server.ip, &x.zone, now);
                    return None;
                }
                if response_usable_for_iteration(&m, &x.sent, &x.zone) {
                    self.infra_success(server.ip, &x.zone, now.saturating_sub(started));
                    return Some(m);
                }
                self.infra_protocol_error(server.ip, &x.zone, now);
                x.fallback = Some(m);
                None
            },
            None => {
                self.infra_fail(server.ip, &x.zone, now);
                None
            },
        }
    }
}

impl Exchange {
    /// What the exchange comes to when no server gave a usable response: the
    /// last one that was of no use, or that there was none.
    pub fn give_up(self) -> (r: Result<Message, RecurseError>)
        ensures
            self@.fallback is Some <==> r is Ok,
            r matches Ok(m) ==> self@.fallback == Some(m@),
            r matches Err(e) ==> e == RecurseError::NoResponse,
    {
        match self.fallback {
            Some(m) => Ok(m),
            None => Err(RecurseError::NoResponse),
        }
    }
}

// ---- walking down ----

/// A walk down from one zone: where it stands, and how much it has used up.
pub struct Iteration {
    pub ctx: IterationContext,
    pub state: IterationState,
    pub referrals: usize,
    pub rounds: usize,
    pub max_referrals: usize,
}

pub struct IterationView {
    pub ctx: IterationContextView,
    pub state: IterationStateView,
    pub referrals: int,
    pub rounds: int,
    pub max_referrals: int,
}

impl View for Iteration {
    type V = IterationView;

    open spec fn view(&self) -> IterationView {
        IterationView {
            ctx: self.ctx@,
            state: self.state@,
            referrals: self.referrals as int,
            rounds: self.rounds as int,
            max_referrals: self.max_referrals as int,
        }
    }
}

/// The most rounds of a walk: one per referral, and because of minimising one
/// per label, and two more.
pub open spec fn round_limit(i: IterationView) -> int {
    i.max_referrals + i.ctx.qname.len() + 2
}

pub open spec fn iteration_valid(i: IterationView) -> bool {
    &&& 0 <= i.referrals <= i.max_referrals
    &&& 0 <= i.rounds <= round_limit(i)
    &&& i.referrals <= i.rounds
    &&& round_limit(i) <= usize::MAX
}

/// What to do after a response.
pub enum IterationStep {
    /// The walk is over.
    Done(Message),
    /// The next query is due.
    Ask,
    /// Addresses of name servers have to be found first.
    NeedNsAddrs { missing: Vec<Name>, pending: PendingReferral },
    /// The walk failed.
    Failed(RecurseError),
}

pub enum IterationStepView {
    Done(MessageView),
    Ask,
    NeedNsAddrs { missing: Seq<Seq<Seq<u8>>>, pending: PendingReferralView },
    Failed(RecurseError),
}

impl View for IterationStep {
    type V = IterationStepView;

    open spec fn view(&self) -> IterationStepView {
        match self {
            IterationStep::Done(m) => IterationStepView::Done(m@),
            IterationStep::Ask => IterationStepView::Ask,
            IterationStep::NeedNsAddrs { missing, pending } => IterationStepView::NeedNsAddrs {
                missing: views(missing@),
                pending: pending@,
            },
            IterationStep::Failed(e) => IterationStepView::Failed(*e),
        }
    }
}

/// The walk after a step: a zone further down is one more referral, and one
/// too many ends the walk.
pub open spec fn step_counted(
    i: IterationView,
    t: IterationStateView,
    out: StepView,
) -> (IterationView, IterationStepView) {
    match out {
        StepView::Done(m) => (IterationView { state: t, ..i }, IterationStepView::Done(m)),
        StepView::Failed(e) => (IterationView { state: t, ..i }, IterationStepView::Failed(e)),
        StepView::NeedNsAddrs { missing, pending } => (
            IterationView { state: t, ..i },
            IterationStepView::NeedNsAddrs { missing, pending },
        ),
        StepView::Continue => if t.zone.len() > i.state.zone.len() {
            if i.referrals >= i.max_referrals {
                (
                    IterationView { state: t, ..i },
                    IterationStepView::Failed(RecurseError::TooManyReferrals),
                )
            } else {
                (
                    IterationView { state: t, referrals: i.referrals + 1, ..i },
                    IterationStepView::Ask,
                )
            }
        } else {
            (IterationView { state: t, ..i }, IterationStepView::Ask)
        },
    }
}

fn count_step(it: &mut Iteration, depth_before: usize, out: StepOutcome) -> (r: IterationStep)
    ensures
        ({
            let i = old(it)@;
            match out@ {
                StepView::Done(m) => final(it)@ == i && r@ == IterationStepView::Done(m),
                StepView::Failed(e) => final(it)@ == i && r@ == IterationStepView::Failed(e),
                StepView::NeedNsAddrs { missing, pending } => final(it)@ == i && r@
                    == (IterationStepView::NeedNsAddrs { missing, pending }),
                StepView::Continue => if i.state.zone.len() > depth_before {
                    if i.referrals >= i.max_referrals {
                        final(it)@ == i && r@ == IterationStepView::Failed(
                            RecurseError::TooManyReferrals,
                        )
                    } else {
                        final(it)@ == (IterationView { referrals: i.referrals + 1, ..i }) && r@
                            == IterationStepView::Ask
                    }
                } else {
                    final(it)@ == i && r@ == IterationStepView::Ask
                },
            }
        }),
{
    match out {
        StepOutcome::Done(m) => IterationStep::Done(m),
        StepOutcome::Failed(e) => IterationStep::Failed(e),
        StepOutcome::NeedNsAddrs { missing, pending } => IterationStep::NeedNsAddrs {
            missing,
            pending,
        },
        StepOutcome::Continue => {
            if it.state.zone.num_labels() > depth_before {
                if it.referrals >= it.max_referrals {
                    return IterationStep::Failed(RecurseError::TooManyReferrals);
                }
                it.referrals = it.referrals + 1;
            }
            IterationStep::Ask
        },
    }
}

/// A referral that had to wait, with the addresses found meanwhile.
pub open spec fn completed(
    p: PendingReferralView,
    extra: Seq<SocketAddr>,
    ttl: Option<u32>,
) -> PendingReferralView {
    PendingReferralView {
        addrs: p.addrs + extra,
        address_ttl: min_ttl(p.address_ttl, ttl),
        ..p
    }
}

impl Recursor {
    /// Begins a walk down from `zone`.
    pub fn begin_iteration(
        &self,
        qname: &Name,
        qtype: u16,
        zone: Name,
        servers: Vec<SocketAddr>,
        honor_cd: bool,
    ) -> (r: Iteration)
        requires
            self.max_referrals + qname@.len() + 2 <= usize::MAX,
        ensures
            r@ == (IterationView {
                ctx: IterationContextView {
                    qname: qname@,
                    qtype,
                    collect_ds: self.validates(honor_cd),
                },
                state: start_state(zone@, servers@),
                referrals: 0,
                rounds: 0,
                max_referrals: self.max_referrals as int,
            }),
            iteration_valid(r@),
    {
        Iteration {
            ctx: IterationContext {
                qname: qname.clone(),
                qtype,
                collect_ds: self.validating(honor_cd),
            },
            state: IterationState::start(zone, servers),
            referrals: 0,
            rounds: 0,
            max_referrals: self.max_referrals,
        }
    }

    /// Takes in the response to the query that was due.
    pub fn iteration_response(
        &mut self,
        it: &mut Iteration,
        resp: Message,
        plan: &NextQuery,
        now_millis: u64,
    ) -> (r: IterationStep)
        requires
            iteration_valid(old(it)@),
            old(it).referrals < old(it).rounds,
        ensures
            ({
                let t = advanced(
                    *old(self),
                    old(it)@.state,
                    resp@,
                    plan@,
                    old(it)@.ctx,
                    now_millis,
                );
                let c = step_counted(old(it)@, t.0, t.1);
                final(it)@ == c.0 && r@ == c.1 && final(self).deleg_cache@ == t.2
            }),
            iteration_valid(final(it)@),
            *final(self) == (Recursor { deleg_cache: final(self).deleg_cache, ..*old(self) }),
            final(self).same_room(*old(self)),
    {
        let depth: usize = it.state.zone.num_labels();
        let out = self.advance(&mut it.state, resp, plan, &it.ctx, now_millis);
        count_step(it, depth, out)
    }

    /// Takes in the addresses that a referral had to wait for.
    pub fn iteration_addresses(
        &mut self,
        it: &mut Iteration,
        pending: PendingReferral,
        extra: Vec<SocketAddr>,
        ttl: Option<u32>,
        now_millis: u64,
    ) -> (r: IterationStep)
        requires
            iteration_valid(old(it)@),
            old(it).referrals < old(it).rounds,
        ensures
            ({
                let t = referral_finished(
                    *old(self),
                    old(it)@.state,
                    old(it)@.ctx,
                    completed(pending@, extra@, ttl),
                    now_millis,
                );
                let c = step_counted(old(it)@, t.0, t.1);
                final(it)@ == c.0 && r@ == c.1 && final(self).deleg_cache@ == t.2
            }),
            iteration_valid(final(it)@),
            *final(self) == (Recursor { deleg_cache: final(self).deleg_cache, ..*old(self) }),
            final(self).same_room(*old(self)),
    {
        let depth: usize = it.state.zone.num_labels();
        let mut pending = pending;
        let mut extra = extra;
        pending.addrs.append(&mut extra);
        pending.address_ttl = min_optional_ttl(pending.address_ttl, ttl);
        let out = self.finish_referral(&mut it.state, &it.ctx, pending, now_millis);
        count_step(it, depth, out)
    }
}

impl Iteration {
    /// The next query, which is paid for at once; an error where the walk or
    /// the question has used up what it may.
    pub fn next(&mut self, budget: &mut Budget) -> (r: Result<NextQuery, RecurseError>)
        requires
            iteration_valid(old(self)@),
        ensures
            ({
                let i = old(self)@;
                if i.rounds >= round_limit(i) {
                    &&& r matches Err(e) && e == RecurseError::TooManyReferrals
                    &&& final(self)@ == i
                    &&& *final(budget) == *old(budget)
                } else if old(budget).queries == 0 {
                    &&& r matches Err(e) && e == RecurseError::TooManyQueries
                    &&& final(self)@ == i
                    &&& *final(budget) == *old(budget)
                } else {
                    &&& r matches Ok(q) && q@ == plan_of(i.state, i.ctx)
                    &&& final(self)@ == (IterationView { rounds: i.rounds + 1, ..i })
                    &&& *final(budget) == (Budget {
                        queries: (old(budget).queries - 1) as usize,
                        ..*old(budget)
                    })
                }
            }),
            iteration_valid(final(self)@),
            r is Ok ==> final(self).referrals < final(self).rounds,
    {
        let total: usize = self.ctx.qname.num_labels();
        if self.rounds >= total + 2 && self.rounds - (total + 2) >= self.max_referrals {
            return Err(RecurseError::TooManyReferrals);
        }
        if budget.queries == 0 {
            return Err(RecurseError::TooManyQueries);
        }
        budget.queries = budget.queries - 1;
        let plan = self.state.next_query(&self.ctx);
        self.rounds = self.rounds + 1;
        Ok(plan)
    }
}

/// A name goes out as what it is, in any letter case: with its letters drawn where that is
/// switched on, else in small letters where that is, else as it stands. Type and class are
/// never touched.
pub proof fn law_a_question_goes_out_as_it_is(
    r: Recursor,
    q: Seq<QuestionView>,
    bits: Seq<[u8; 32]>,
    i: int,
)
    requires
        0 <= i < q.len(),
    ensures
        ({
            let out = outgoing_questions(r, q, bits);
            &&& out.len() == q.len()
            &&& out[i].qtype == q[i].qtype && out[i].qclass == q[i].qclass
            &&& crate::name::same_name(out[i].name, q[i].name)
            &&& r.caps_for_id ==> out[i].name == cased_name(q[i].name, bits[i]@)
            &&& !r.caps_for_id && r.lowercase_outgoing ==> out[i].name == fold_case(q[i].name)
            &&& !r.caps_for_id && !r.lowercase_outgoing ==> out[i].name == q[i].name
        }),
{
    crate::name::law_case_keeps_the_name(q[i].name, bits[i]@);
    crate::name::law_names_are_compared_octet_by_octet(q[i].name, q[i].name);
}

/// Each server has its share of the time: a fourth at least, all of it where it is alone,
/// and never less than 300 milliseconds.
pub proof fn law_the_share_of_a_server(timeout: u64, n: int)
    ensures
        server_share(timeout, n) >= 300_000_000,
        n <= 1 && timeout >= 300_000_000 ==> server_share(timeout, n) == timeout,
        n == 2 && timeout >= 600_000_000 ==> server_share(timeout, n) == timeout as int / 2,
        n == 3 && timeout >= 900_000_000 ==> server_share(timeout, n) == timeout as int / 3,
        n >= 4 && timeout >= 1_200_000_000 ==> server_share(timeout, n) == timeout as int / 4,
        timeout < 300_000_000 ==> server_share(timeout, n) == 300_000_000,
{
    vstd::arithmetic::div_mod::lemma_div_basics_2(timeout as int);
    assert(timeout as int / 1 == timeout);
}

/// An exchange ends with the time of the question, and with its own where that is sooner.
pub proof fn law_when_an_exchange_ends(r: Recursor, deadline: u64, now: u64)
    ensures
        exchange_end(r, deadline, now) <= deadline,
        now + r.timeout <= u64::MAX ==> exchange_end(r, deadline, now) <= now + r.timeout,
        exchange_end(r, deadline, now) == deadline || exchange_end(r, deadline, now) == now
            + r.timeout,
{
}

/// The next server is the first one from there on that may be asked; there is none exactly
/// if none may.
pub proof fn law_the_next_server_that_may_be_asked(r: Recursor, queue: Seq<SocketAddr>, from: int)
    requires
        0 <= from <= queue.len(),
    ensures
        ({
            let at = next_eligible(r, queue, from);
            &&& from <= at <= queue.len()
            &&& at < queue.len() ==> r.eligible(queue[at].ip)
            &&& forall|j: int| from <= j < at ==> !r.eligible((#[trigger] queue[j]).ip)
        }),
        any_eligible(r, queue) <==> next_eligible(r, queue, 0) < queue.len(),
{
    lemma_scan(r, queue, from);
    lemma_scan(r, queue, 0);
    let at = next_eligible(r, queue, 0);
    if at < queue.len() {
        assert(r.eligible(queue[at].ip));
    }
    if any_eligible(r, queue) {
        let i = choose|i: int| 0 <= i < queue.len() && r.eligible((#[trigger] queue[i]).ip);
        if at >= queue.len() {
            assert(!r.eligible(queue[i].ip));
        }
    }
}

proof fn lemma_scan(r: Recursor, queue: Seq<SocketAddr>, from: int)
    requires
        0 <= from <= queue.len(),
    ensures
        ({
            let at = next_eligible(r, queue, from);
            &&& from <= at <= queue.len()
            &&& at < queue.len() ==> r.eligible(queue[at].ip)
            &&& forall|j: int| from <= j < at ==> !r.eligible((#[trigger] queue[j]).ip)
        }),
    decreases queue.len() - from,
{
    if from < queue.len() && !r.eligible(queue[from].ip) {
        lemma_scan(r, queue, from + 1);
    }
}

/// How the steps of a walk are counted: what ends it ends it, what needs addresses waits
/// for them, and all else leads to the next query. Only a move to a deeper zone counts as
/// a referral, and one more than is allowed fails the walk.
pub proof fn law_how_steps_are_counted(i: IterationView, t: IterationStateView, out: StepView)
    ensures
        ({
            let c = step_counted(i, t, out);
            &&& c.0.state == t && c.0.ctx == i.ctx && c.0.rounds == i.rounds
            &&& c.0.max_referrals == i.max_referrals
            &&& match out {
                StepView::Done(m) => c.1 == IterationStepView::Done(m),
                StepView::Failed(e) => c.1 == IterationStepView::Failed(e),
                StepView::NeedNsAddrs { missing, pending } => c.1
                    == (IterationStepView::NeedNsAddrs { missing, pending }),
                StepView::Continue => {
                    let deeper = t.zone.len() > i.state.zone.len();
                    &&& !deeper ==> c.1 is Ask && c.0.referrals == i.referrals
                    &&& deeper && i.referrals < i.max_referrals ==> c.1 is Ask && c.0.referrals
                        == i.referrals + 1
                    &&& deeper && i.referrals >= i.max_referrals ==> c.1
                        == IterationStepView::Failed(RecurseError::TooManyReferrals)
                },
            }
        }),
        round_limit(i) == i.max_referrals + i.ctx.qname.len() + 2,
{
}

/// Addresses that were found join those that were there, and hold no longer than either.
pub proof fn law_found_addresses_join_the_referral(
    p: PendingReferralView,
    extra: Seq<SocketAddr>,
    ttl: Option<u32>,
    a: SocketAddr,
)
    ensures
        ({
            let c = completed(p, extra, ttl);
            &&& c.zone == p.zone && c.resp == p.resp && c.ns_names == p.ns_names
            &&& p.addrs.contains(a) ==> c.addrs.contains(a)
            &&& extra.contains(a) ==> c.addrs.contains(a)
            &&& c.addrs.len() == p.addrs.len() + extra.len()
            &&& ttl matches Some(t) ==> c.address_ttl matches Some(x) && x <= t
            &&& p.address_ttl matches Some(t) ==> c.address_ttl matches Some(x) && x <= t
            &&& p.address_ttl is None ==> c.address_ttl == ttl
        }),
{
    let c = completed(p, extra, ttl);
    if p.addrs.contains(a) {
        let k = choose|k: int| 0 <= k < p.addrs.len() && p.addrs[k] == a;
        assert(c.addrs[k] == a);
    }
    if extra.contains(a) {
        let k = choose|k: int| 0 <= k < extra.len() && extra[k] == a;
        assert(c.addrs[p.addrs.len() + k] == a);
    }
}

} // verus!
