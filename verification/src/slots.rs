//! What the searches that share a thread hold, and the steps between them: who
//! waits for whom, what each of them may still use up, and who gets which answer.

use vstd::prelude::*;

use crate::addr::SocketAddr;
use crate::chain::{combined, law_combine_keeps_the_worst, SecurityStatus};
use crate::iterate::{addr_of, PendingReferral, PendingReferralView};
use crate::lane::{Session, SessionEndView, SessionView};
use crate::message::{
    Header, Message, MessageView, Question, QuestionView, Record, RecordView, RCODE_SERVFAIL,
    TYPE_A, TYPE_DNAME, TYPE_DNSKEY,
};
use crate::name::{fold_case, Name};
use crate::recursor::{Budget, RecurseError, Recursor};
use crate::resolution::{
    alias_tail, at_beginning, delivered, ended, hopped, leaf_of, lemma_unwound, records_of,
    resolution_valid, status_of, turn_of, unwound, HopView, ResolutionView, StageView, Turn,
};
use crate::resolve::{
    as_response, depth_error, judged, law_bogus_answers_are_withheld, merged, reading_of,
    terminal_answer, Reading,
};
use crate::response::{least_ttl, min_ttl, sanitized, AliasHop, AliasHopView};
use crate::seqs::views;
use crate::table::TableView;

verus! {

/// A number by which the one who asks knows a question again.
pub type Token = u64;

/// How many sets of keys one validation may fetch.
pub const MAX_KEY_FETCHES: usize = 20;

/// How many name servers one referral may have looked up.
pub const MAX_CHILDREN: usize = 8;

/// How a question ended.
pub enum Completion {
    Answer(Token, Message),
    Fail(Token, RecurseError),
    /// It has to be asked again the blocking way.
    Retry(Token),
}

pub enum CompletionView {
    Answer(Token, MessageView),
    Fail(Token, RecurseError),
    Retry(Token),
}

impl View for Completion {
    type V = CompletionView;

    open spec fn view(&self) -> CompletionView {
        match self {
            Completion::Answer(t, m) => CompletionView::Answer(*t, m@),
            Completion::Fail(t, e) => CompletionView::Fail(*t, *e),
            Completion::Retry(t) => CompletionView::Retry(*t),
        }
    }
}

/// A question of a client: who asked it, who joined, and how far it has come.
pub struct RootCtx {
    pub leader: Token,
    pub followers: Vec<Token>,
    /// The name in lower case and the type, by which the question is known.
    pub key: Name,
    pub qtype: u16,
    /// The aliases followed so far.
    pub acc_answers: Vec<Record>,
    /// Once an alias was followed: the question as the first response repeats it.
    pub asked: Option<Vec<Question>>,
    pub cname_hops: usize,
    pub dname_hops: usize,
    /// What validation found so far, at its worst.
    pub acc_status: SecurityStatus,
}

#[verifier::ext_equal]
pub struct RootView {
    pub leader: Token,
    pub followers: Seq<Token>,
    pub key: Seq<Seq<u8>>,
    pub qtype: u16,
    pub acc_answers: Seq<RecordView>,
    pub asked: Option<Seq<QuestionView>>,
    pub cname_hops: int,
    pub dname_hops: int,
    pub acc_status: SecurityStatus,
}

impl View for RootCtx {
    type V = RootView;

    open spec fn view(&self) -> RootView {
        RootView {
            leader: self.leader,
            followers: self.followers@,
            key: self.key@,
            qtype: self.qtype,
            acc_answers: views(self.acc_answers@),
            asked: match self.asked {
                Some(q) => Some(views(q@)),
                None => None,
            },
            cname_hops: self.cname_hops as int,
            dname_hops: self.dname_hops as int,
            acc_status: self.acc_status,
        }
    }
}

/// What a search is for.
pub enum SlotKind {
    /// A question of a client.
    Root(RootCtx),
    /// The address of a name server, for the search in the given place.
    NsAddr { parent: usize },
    /// The keys of a zone, for the question in the given place.
    Dnskey { parent: usize, zone: Name },
}

pub enum KindView {
    Root(RootView),
    NsAddr { parent: int },
    Dnskey { parent: int, zone: Seq<Seq<u8>> },
}

impl View for SlotKind {
    type V = KindView;

    open spec fn view(&self) -> KindView {
        match self {
            SlotKind::Root(c) => KindView::Root(c@),
            SlotKind::NsAddr { parent } => KindView::NsAddr { parent: *parent as int },
            SlotKind::Dnskey { parent, zone } => KindView::Dnskey {
                parent: *parent as int,
                zone: zone@,
            },
        }
    }
}

/// A search that has yet to start: for what, and where, unless that is to be
/// chosen.
pub struct SearchOrder {
    pub qname: Name,
    pub qtype: u16,
    pub from: Option<(Name, Vec<SocketAddr>)>,
    /// The question was handed in just now.
    pub submitted: bool,
}

pub struct OrderView {
    pub qname: Seq<Seq<u8>>,
    pub qtype: u16,
    pub from: Option<(Seq<Seq<u8>>, Seq<SocketAddr>)>,
    pub submitted: bool,
}

impl View for SearchOrder {
    type V = OrderView;

    open spec fn view(&self) -> OrderView {
        OrderView {
            qname: self.qname@,
            qtype: self.qtype,
            from: match self.from {
                Some(f) => Some((f.0@, f.1@)),
                None => None,
            },
            submitted: self.submitted,
        }
    }
}

/// A referral that waits for addresses of its servers.
pub struct Parked {
    pub pending: PendingReferral,
    pub missing: Vec<Name>,
    pub next_missing: usize,
    pub addrs: Vec<SocketAddr>,
    pub addr_ttl: Option<u32>,
    pub children_spawned: usize,
}

pub struct ParkedView {
    pub pending: PendingReferralView,
    pub missing: Seq<Seq<Seq<u8>>>,
    pub next_missing: int,
    pub addrs: Seq<SocketAddr>,
    pub addr_ttl: Option<u32>,
    pub children_spawned: int,
}

impl View for Parked {
    type V = ParkedView;

    open spec fn view(&self) -> ParkedView {
        ParkedView {
            pending: self.pending@,
            missing: views(self.missing@),
            next_missing: self.next_missing as int,
            addrs: self.addrs@,
            addr_ttl: self.addr_ttl,
            children_spawned: self.children_spawned as int,
        }
    }
}

/// A response that is held back until it is validated.
pub struct Held {
    pub msg: Message,
    pub positive: bool,
    pub fetches: usize,
    /// The zones whose keys were asked for, in lower case.
    pub tried: Vec<Name>,
}

pub struct HeldView {
    pub msg: MessageView,
    pub positive: bool,
    pub fetches: int,
    pub tried: Seq<Seq<Seq<u8>>>,
}

impl View for Held {
    type V = HeldView;

    open spec fn view(&self) -> HeldView {
        HeldView {
            msg: self.msg@,
            positive: self.positive,
            fetches: self.fetches as int,
            tried: views(self.tried@),
        }
    }
}

/// Why a search ends without a response.
#[derive(Clone, Copy, PartialEq, Eq, Structural, Debug)]
pub enum Cause {
    Failed(RecurseError),
    NeedsSync,
}

/// What a search is doing.
pub enum Phase {
    /// It has yet to start.
    Starting(SearchOrder),
    /// It sends queries and reads replies.
    Searching,
    /// Another search looks for an address.
    Parked(Parked),
    /// The addresses are there.
    Resuming(Parked),
    /// Another search fetches keys.
    FetchingKeys(Held),
    /// It has to be seen whether keys are missing.
    CheckingKeys(Held),
    /// An alias has to be validated before it is followed.
    JudgingAlias(AliasHop, Message),
    /// A response has to be validated before it is given out.
    Judging(Held),
    /// It is over.
    Ended(Cause),
}

pub enum PhaseView {
    Starting(OrderView),
    Searching,
    Parked(ParkedView),
    Resuming(ParkedView),
    FetchingKeys(HeldView),
    CheckingKeys(HeldView),
    JudgingAlias(AliasHopView, MessageView),
    Judging(HeldView),
    Ended(Cause),
}

impl View for Phase {
    type V = PhaseView;

    open spec fn view(&self) -> PhaseView {
        match self {
            Phase::Starting(o) => PhaseView::Starting(o@),
            Phase::Searching => PhaseView::Searching,
            Phase::Parked(p) => PhaseView::Parked(p@),
            Phase::Resuming(p) => PhaseView::Resuming(p@),
            Phase::FetchingKeys(h) => PhaseView::FetchingKeys(h@),
            Phase::CheckingKeys(h) => PhaseView::CheckingKeys(h@),
            Phase::JudgingAlias(a, m) => PhaseView::JudgingAlias(a@, m@),
            Phase::Judging(h) => PhaseView::Judging(h@),
            Phase::Ended(c) => PhaseView::Ended(*c),
        }
    }
}

/// One search in its place.
pub struct Slot {
    pub kind: SlotKind,
    pub session: Option<Session>,
    pub phase: Phase,
    /// How many further searches it may cause.
    pub ns_budget: usize,
    /// The end of the time that the client's question has.
    pub deadline: u64,
}

pub struct SlotView {
    pub kind: KindView,
    pub session: Option<SessionView>,
    pub phase: PhaseView,
    pub ns_budget: int,
    pub deadline: u64,
}

pub open spec fn session_view(s: Option<Session>) -> Option<SessionView> {
    match s {
        Some(s) => Some(s@),
        None => None,
    }
}

impl View for Slot {
    type V = SlotView;

    open spec fn view(&self) -> SlotView {
        SlotView {
            kind: self.kind@,
            session: session_view(self.session),
            phase: self.phase@,
            ns_budget: self.ns_budget as int,
            deadline: self.deadline,
        }
    }
}

/// What is due next, and where.
#[derive(Clone, Copy, PartialEq, Eq, Structural, Debug)]
pub enum Due {
    Nothing,
    /// Start the search.
    Start(usize),
    /// Send its query.
    Send(usize),
    /// Send its query to the next server, after one that did not reply.
    Resend(usize),
    /// Go on with the addresses that were found.
    Resume(usize),
    /// See whether keys are missing.
    CheckKeys(usize),
    /// Have its response validated.
    Judge(usize),
    /// Put an end to it.
    Finish(usize),
}

pub struct ReactorConfig {
    /// How many questions are worked on at once.
    pub inflight_max: usize,
    /// The time that a question has, in nanoseconds. Searches for its sake share
    /// it.
    pub session_budget: u64,
    /// Whether one search serves all who ask the same at the same time.
    pub singleflight: bool,
}

impl Default for ReactorConfig {
    fn default() -> (r: Self)
        ensures
            r.inflight_max == 32,
            r.session_budget == 5_000_000_000,
            r.singleflight,
    {
        ReactorConfig { inflight_max: 32, session_budget: 5_000_000_000, singleflight: true }
    }
}

/// All searches, and how many questions ended in which way.
#[verifier::ext_equal]
pub struct LaneView {
    pub table: TableView<SlotView>,
    pub merged: u64,
    pub completed: u64,
    pub failed: u64,
    pub retried: u64,
}

/// What a step comes to: the searches after it, the questions that ended, and what
/// is due next.
pub struct Moved {
    pub lane: LaneView,
    pub out: Seq<CompletionView>,
    pub due: Due,
}

/// A count after `by` more, starting over when it is full.
pub open spec fn bumped(n: u64, by: nat) -> u64 {
    ((n + by) % 0x1_0000_0000_0000_0000) as u64
}

/// All who wait for a question: those who joined, then the one who asked.
pub open spec fn tokens(c: RootView) -> Seq<Token> {
    c.followers.push(c.leader)
}

pub open spec fn quiet(lane: LaneView, due: Due) -> Moved {
    Moved { lane, out: Seq::empty(), due }
}

/// The lane with another entry at a place.
pub open spec fn with_slot(lane: LaneView, i: int, s: SlotView) -> LaneView {
    LaneView { table: lane.table.replaced(i, s), ..lane }
}

pub open spec fn without_slot(lane: LaneView, i: int) -> LaneView {
    LaneView { table: lane.table.taken(i), ..lane }
}

/// The question ends: everybody gets the answer.
pub open spec fn answer_root(lane: LaneView, i: int, c: RootView, m: MessageView) -> Moved {
    let t = tokens(c);
    Moved {
        lane: LaneView {
            table: lane.table.taken(i),
            completed: bumped(lane.completed, t.len()),
            ..lane
        },
        out: Seq::new(t.len(), |k: int| CompletionView::Answer(t[k], m)),
        due: Due::Nothing,
    }
}

/// The question ends: everybody is told that it failed.
pub open spec fn fail_root(lane: LaneView, i: int, c: RootView, e: RecurseError) -> Moved {
    let t = tokens(c);
    Moved {
        lane: LaneView {
            table: lane.table.taken(i),
            failed: bumped(lane.failed, t.len()),
            ..lane
        },
        out: Seq::new(t.len(), |k: int| CompletionView::Fail(t[k], e)),
        due: Due::Nothing,
    }
}

/// The question ends here: everybody is to ask again the blocking way.
pub open spec fn retry_root(lane: LaneView, i: int, c: RootView) -> Moved {
    let t = tokens(c);
    Moved {
        lane: LaneView {
            table: lane.table.taken(i),
            retried: bumped(lane.retried, t.len()),
            ..lane
        },
        out: Seq::new(t.len(), |k: int| CompletionView::Retry(t[k])),
        due: Due::Nothing,
    }
}

/// The search is over; what follows from that is due.
pub open spec fn end_slot(lane: LaneView, i: int, cause: Cause) -> Moved {
    quiet(
        with_slot(
            lane,
            i,
            SlotView { phase: PhaseView::Ended(cause), ..lane.table.slots[i] },
        ),
        Due::Finish(i as usize),
    )
}

/// How many searches there may be in all: twice as many as questions, so that a
/// question does not wait for a search that finds no room.
pub open spec fn slot_max(cfg: ReactorConfig) -> int {
    if 2 * cfg.inflight_max <= usize::MAX {
        2 * cfg.inflight_max
    } else {
        usize::MAX as int
    }
}

pub open spec fn population(lane: LaneView) -> int {
    lane.table.slots.dom().len() as int
}

/// A search for an address on behalf of `parent`. It takes one of what the parent
/// may cause, and shares its time.
pub open spec fn address_search(parent: int, p: SlotView, qname: Seq<Seq<u8>>) -> SlotView {
    SlotView {
        kind: KindView::NsAddr { parent },
        session: None,
        phase: PhaseView::Starting(
            OrderView { qname, qtype: TYPE_A, from: None, submitted: false },
        ),
        ns_budget: p.ns_budget - 1,
        deadline: p.deadline,
    }
}

/// Has an address looked for, if the parent may cause a search, there is room for
/// it, and there is time. Otherwise the parent fails.
#[verifier::opaque]
pub open spec fn spawn_child(
    cfg: ReactorConfig,
    lane: LaneView,
    parent: int,
    parked: ParkedView,
    qname: Seq<Seq<u8>>,
    now: u64,
) -> Moved {
    let p = lane.table.slots[parent];
    if p.ns_budget >= 1 && population(lane) < slot_max(cfg) && now < p.deadline {
        let held = with_slot(
            lane,
            parent,
            SlotView { phase: PhaseView::Parked(parked), ..p },
        );
        quiet(
            LaneView { table: held.table.added(address_search(parent, p, qname)), ..held },
            Due::Start(held.table.next() as usize),
        )
    } else {
        end_slot(lane, parent, Cause::Failed(RecurseError::NoReachableNs))
    }
}

/// The addresses in an answer of servers that may be asked, and how long they
/// hold.
pub open spec fn is_address(r: Recursor) -> spec_fn(RecordView) -> bool {
    |x: RecordView| addr_of(x.rdata) is Some && r.eligible(addr_of(x.rdata)->0)
}

pub open spec fn found_addresses(r: Recursor, m: MessageView) -> (Seq<SocketAddr>, Option<u32>) {
    let s = m.answers.filter(is_address(r));
    (crate::iterate::sockets(s, r.port), least_ttl(s))
}

/// A search for an address is over, and gave these. The parent has the next server
/// looked up, or goes on with what it has.
#[verifier::opaque]
pub open spec fn addresses_found(
    cfg: ReactorConfig,
    lane: LaneView,
    i: int,
    parent: int,
    addrs: Seq<SocketAddr>,
    ttl: Option<u32>,
    now: u64,
) -> Moved {
    let rest = without_slot(lane, i);
    let p = rest.table.slots[parent];
    match p.phase {
        PhaseView::Parked(k) => {
            let more = ParkedView {
                addrs: k.addrs + addrs,
                addr_ttl: min_ttl(k.addr_ttl, ttl),
                ..k
            };
            if more.next_missing < more.missing.len() && more.children_spawned < MAX_CHILDREN {
                spawn_child(
                    cfg,
                    rest,
                    parent,
                    ParkedView {
                        next_missing: more.next_missing + 1,
                        children_spawned: more.children_spawned + 1,
                        ..more
                    },
                    more.missing[more.next_missing],
                    now,
                )
            } else {
                quiet(
                    with_slot(rest, parent, SlotView { phase: PhaseView::Resuming(more), ..p }),
                    Due::Resume(parent as usize),
                )
            }
        },
        _ => quiet(rest, Due::Nothing),
    }
}

/// A search for keys is over. Its parent looks again which are missing.
#[verifier::opaque]
pub open spec fn keys_fetched(lane: LaneView, i: int, parent: int) -> Moved {
    let rest = without_slot(lane, i);
    let p = rest.table.slots[parent];
    match p.phase {
        PhaseView::FetchingKeys(h) => quiet(
            with_slot(rest, parent, SlotView { phase: PhaseView::CheckingKeys(h), ..p }),
            Due::CheckKeys(parent as usize),
        ),
        _ => quiet(rest, Due::Nothing),
    }
}

/// What follows once a search is over without a response.
pub open spec fn finished(cfg: ReactorConfig, lane: LaneView, i: int, now: u64) -> Moved {
    let s = lane.table.slots[i];
    match s.phase {
        PhaseView::Ended(cause) => match s.kind {
            KindView::Root(c) => match cause {
                Cause::Failed(e) => fail_root(lane, i, c, e),
                Cause::NeedsSync => retry_root(lane, i, c),
            },
            KindView::Dnskey { parent, .. } => keys_fetched(lane, i, parent),
            KindView::NsAddr { parent } => match cause {
                Cause::NeedsSync => end_slot(without_slot(lane, i), parent, Cause::NeedsSync),
                Cause::Failed(_) => addresses_found(
                    cfg,
                    lane,
                    i,
                    parent,
                    Seq::empty(),
                    None,
                    now,
                ),
            },
        },
        _ => quiet(lane, Due::Nothing),
    }
}

/// The question once an alias is followed: its records are kept, and what
/// validation said of it counts for the whole. What is asked is what the first of all
/// responses repeats.
pub open spec fn with_alias(
    c: RootView,
    hop: AliasHopView,
    questions: Seq<QuestionView>,
    status: Option<SecurityStatus>,
) -> RootView {
    let by_dname = hop.atype == TYPE_DNAME;
    RootView {
        acc_answers: c.acc_answers + hop.records,
        asked: match c.asked {
            Some(q) => Some(q),
            None => Some(questions),
        },
        acc_status: match status {
            Some(x) => combined(c.acc_status, x),
            None => c.acc_status,
        },
        cname_hops: if by_dname {
            c.cname_hops
        } else {
            c.cname_hops + 1
        },
        dname_hops: if by_dname {
            c.dname_hops + 1
        } else {
            c.dname_hops
        },
        ..c
    }
}

/// The alias is followed, and the search goes on at its target, if there is time.
#[verifier::opaque]
pub open spec fn followed(
    lane: LaneView,
    i: int,
    c: RootView,
    hop: AliasHopView,
    questions: Seq<QuestionView>,
    status: Option<SecurityStatus>,
    now: u64,
) -> Moved {
    let s = lane.table.slots[i];
    let d = with_alias(c, hop, questions, status);
    if now >= s.deadline {
        fail_root(lane, i, d, RecurseError::NoResponse)
    } else {
        quiet(
            with_slot(
                lane,
                i,
                SlotView {
                    kind: KindView::Root(d),
                    session: None,
                    phase: PhaseView::Starting(
                        OrderView {
                            qname: hop.target,
                            qtype: c.qtype,
                            from: None,
                            submitted: false,
                        },
                    ),
                    ..s
                },
            ),
            Due::Start(i as usize),
        )
    }
}

/// What goes out: the response under what validation found, without what nobody
/// vouches for, behind the aliases that led to it and under the question that was asked
/// at first. Where it is held back, none of their records goes out either.
#[verifier::opaque]
pub open spec fn given_out(
    r: Recursor,
    s: SessionView,
    c: RootView,
    h: HeldView,
    status: Option<SecurityStatus>,
) -> MessageView {
    let leaf = leaf_of(s.state.chain);
    match c.asked {
        None => delivered(
            terminal_answer(r, s.qname, s.qtype, h.msg, h.positive, status, false, leaf),
        ),
        Some(questions) => {
            let tail = sanitized(
                h.msg,
                s.qname,
                s.qtype,
                h.positive,
                if h.positive {
                    None
                } else {
                    leaf
                },
            );
            let whole = merged(c.acc_answers, questions, tail);
            delivered(as_response(judged(r, whole, status, false)))
        },
    }
}

/// A response without marks that are not ours to give.
pub open spec fn unmarked(m: MessageView) -> MessageView {
    MessageView {
        header: Header { authentic_data: false, authoritative: false, ..m.header },
        ..m
    }
}

/// Where any part is bogus, the lane gives nothing of it out, unless bogus data may
/// be seen: neither the response nor the aliases that led to it.
pub proof fn law_the_lane_withholds_what_is_bogus(
    r: Recursor,
    x: SessionView,
    c: RootView,
    h: HeldView,
    status: SecurityStatus,
)
    requires
        !r.permissive,
        c.acc_status is Bogus || status is Bogus,
    ensures
        ({
            let m = given_out(r, x, c, h, Some(combined(c.acc_status, status)));
            &&& m.header.rcode == RCODE_SERVFAIL
            &&& !m.header.authentic_data
            &&& m.answers.len() == 0
            &&& m.authorities.len() == 0
        }),
{
    reveal(given_out);
    law_bogus_answers_are_withheld(
        r,
        x.qname,
        x.qtype,
        h.msg,
        h.positive,
        combined(c.acc_status, status)->Bogus_0,
        leaf_of(x.state.chain),
    );
}

/// A question in the lane stands where the same question stands outside of it: the
/// same aliases led there, and the same was found out about them.
pub open spec fn alongside(r: Recursor, s: ResolutionView, c: RootView) -> bool {
    &&& !s.nested
    &&& !s.honor_cd
    &&& s.hops.len() == 0 ==> s.current == s.qname
    &&& c.qtype == s.qtype
    &&& c.acc_answers == records_of(s.hops)
    &&& c.asked == if s.hops.len() == 0 {
        None
    } else {
        Some(s.hops[0].questions)
    }
    &&& r.validates(false) ==> c.acc_status == status_of(s.hops)
    &&& c.cname_hops == s.cname_depth
    &&& c.dname_hops == s.dname_depth
}

/// A question begins in the lane where it begins outside of it.
pub proof fn law_both_ways_begin_alike(
    cfg: ReactorConfig,
    r: Recursor,
    qname: Seq<Seq<u8>>,
    qtype: u16,
    token: Token,
    budget: Budget,
    now: u64,
)
    ensures
        fresh_root(cfg, r, qname, qtype, token, now).kind matches KindView::Root(c) && alongside(
            r,
            at_beginning(qname, qtype, false, false, budget),
            c,
        ),
{
}

/// The lane reads every response as it is read outside of it: it follows the same
/// aliases, as far as the same bounds, and takes the rest for the same kind of answer.
pub proof fn law_both_ways_follow_the_same_aliases(
    r: Recursor,
    s: ResolutionView,
    c: RootView,
    m: MessageView,
    status: SecurityStatus,
)
    requires
        resolution_valid(r, s),
        s.stage is Walking,
        alongside(r, s, c),
    ensures
        match (turn_of(s, m), reading_of(c.asked is None, m, s.current, s.qtype)) {
            (Turn::Answer(a), Reading::Answer(b)) => a == b,
            (Turn::Alias(a), Reading::Follow(hop)) => {
                let by_dname = hop.atype == TYPE_DNAME;
                let over = depth_error(r, a.cname_depth, a.dname_depth);
                let judged_as = if r.validates(false) {
                    Some(status)
                } else {
                    None
                };
                &&& a.target == hop.target
                &&& a.owner == hop.owner
                &&& a.atype == hop.atype
                &&& a.records == hop.records
                &&& over == if by_dname && c.dname_hops >= r.max_dnames {
                    Some(RecurseError::TooManyDnames)
                } else if !by_dname && c.cname_hops >= r.max_cnames {
                    Some(RecurseError::TooManyCnames)
                } else {
                    None
                }
                &&& over is None ==> alongside(
                    r,
                    hopped(r, s, m, a, status),
                    with_alias(c, hop, m.questions, judged_as),
                )
            },
            (Turn::End { positive: a }, Reading::End { positive: b }) => a == b,
            _ => false,
        },
{
    if let Turn::Alias(a) = turn_of(s, m) {
        let h = HopView { records: a.records, questions: m.questions, status };
        assert(s.hops.push(h).drop_last() =~= s.hops);
        assert(s.hops.len() > 0 ==> s.hops.push(h)[0] == s.hops[0]);
    }
}

/// Whichever way a question is worked on, the answer is the same: the lane gives out
/// what is handed to a client outside of it.
pub proof fn law_both_ways_give_the_same_answer(
    r: Recursor,
    s: ResolutionView,
    c: RootView,
    x: SessionView,
    h: HeldView,
    m: MessageView,
    status: SecurityStatus,
)
    requires
        alongside(r, s, c),
        x.qname == s.current,
        x.qtype == s.qtype,
        h.msg == unmarked(m),
    ensures
        ({
            let found = if r.validates(false) {
                Some(combined(c.acc_status, status))
            } else {
                None
            };
            ended(r, s, m, leaf_of(x.state.chain), h.positive, status).0.stage == StageView::Over(
                Ok(given_out(r, x, c, h, found)),
            )
        }),
{
    reveal(given_out);
    let found = if r.validates(false) {
        Some(combined(c.acc_status, status))
    } else {
        None
    };
    let leaf = leaf_of(x.state.chain);
    if s.hops.len() == 0 {
        law_combine_keeps_the_worst(status, status, status);
        let lane = terminal_answer(r, x.qname, x.qtype, h.msg, h.positive, found, false, leaf);
        let other = terminal_answer(r, x.qname, x.qtype, m, h.positive, found, false, leaf);
        assert(lane.header == Header { authoritative: lane.header.authoritative, ..other.header });
        assert(delivered(lane) == delivered(other));
    } else {
        let tail = alias_tail(s, m, leaf, h.positive);
        lemma_unwound(s.hops, tail, status);
        let u = unwound(s.hops, tail, status);
        let mine = MessageView {
            header: Header { authentic_data: false, authoritative: false, ..u.0.header },
            ..u.0
        };
        assert(delivered(as_response(judged(r, u.0, found, false))) == delivered(
            as_response(judged(r, mine, found, false)),
        ));
    }
}

/// A question of a client has a response. An alias is followed as far as the
/// bounds allow; where validation is on, it comes first.
#[verifier::opaque]
pub open spec fn root_answered(r: Recursor, lane: LaneView, i: int, m: MessageView, now: u64) -> Moved {
    let s = lane.table.slots[i];
    let x = s.session->0;
    let c = s.kind->Root_0;
    match reading_of(c.asked is None, m, x.qname, x.qtype) {
        Reading::Answer(out) => answer_root(lane, i, c, delivered(out)),
        Reading::Follow(hop) => {
            let by_dname = hop.atype == TYPE_DNAME;
            if by_dname && c.dname_hops >= r.max_dnames {
                fail_root(lane, i, c, RecurseError::TooManyDnames)
            } else if !by_dname && c.cname_hops >= r.max_cnames {
                fail_root(lane, i, c, RecurseError::TooManyCnames)
            } else if r.trust_anchors@.len() > 0 {
                quiet(
                    with_slot(lane, i, SlotView { phase: PhaseView::JudgingAlias(hop, m), ..s }),
                    Due::Judge(i as usize),
                )
            } else {
                followed(lane, i, c, hop, m.questions, None, now)
            }
        },
        Reading::End { positive } => {
            let h = HeldView { msg: unmarked(m), positive, fetches: 0, tried: Seq::empty() };
            if r.trust_anchors@.len() > 0 {
                quiet(
                    with_slot(lane, i, SlotView { phase: PhaseView::CheckingKeys(h), ..s }),
                    Due::CheckKeys(i as usize),
                )
            } else {
                answer_root(lane, i, c, given_out(r, x, c, h, None))
            }
        },
    }
}

/// A referral comes without an address: the first of its servers is looked up.
pub open spec fn parked_for(
    cfg: ReactorConfig,
    lane: LaneView,
    i: int,
    missing: Seq<Seq<Seq<u8>>>,
    pending: PendingReferralView,
    now: u64,
) -> Moved {
    if missing.len() == 0 {
        end_slot(lane, i, Cause::Failed(RecurseError::NoReachableNs))
    } else {
        spawn_child(
            cfg,
            lane,
            i,
            ParkedView {
                pending,
                missing,
                next_missing: 1,
                addrs: Seq::empty(),
                addr_ttl: None,
                children_spawned: 1,
            },
            missing[0],
            now,
        )
    }
}

/// Where the end of a search leads.
pub open spec fn settled(
    r: Recursor,
    cfg: ReactorConfig,
    lane: LaneView,
    i: int,
    end: SessionEndView,
    now: u64,
) -> Moved {
    match end {
        SessionEndView::NeedAddrs { missing, pending } => parked_for(
            cfg,
            lane,
            i,
            missing,
            pending,
            now,
        ),
        SessionEndView::Failed(e) => end_slot(lane, i, Cause::Failed(e)),
        SessionEndView::NeedsSync => end_slot(lane, i, Cause::NeedsSync),
        SessionEndView::Done(m) => match lane.table.slots[i].kind {
            KindView::Root(_) => root_answered(r, lane, i, m, now),
            KindView::Dnskey { parent, .. } => keys_fetched(lane, i, parent),
            KindView::NsAddr { parent } => {
                let found = found_addresses(r, m);
                addresses_found(cfg, lane, i, parent, found.0, found.1, now)
            },
        },
    }
}

/// A search for the keys of a zone on behalf of a question.
pub open spec fn key_search(
    parent: int,
    p: SlotView,
    zone: Seq<Seq<u8>>,
    servers: Seq<SocketAddr>,
) -> SlotView {
    SlotView {
        kind: KindView::Dnskey { parent, zone },
        session: None,
        phase: PhaseView::Starting(
            OrderView {
                qname: zone,
                qtype: TYPE_DNSKEY,
                from: Some((zone, servers)),
                submitted: false,
            },
        ),
        ns_budget: p.ns_budget,
        deadline: p.deadline,
    }
}

/// The missing keys are fetched, one set after the other, as long as that is
/// allowed and there is room and time; with all of them, the response is
/// validated.
#[verifier::opaque]
pub open spec fn keys_checked(
    cfg: ReactorConfig,
    lane: LaneView,
    i: int,
    missing: Option<(Seq<Seq<u8>>, Seq<SocketAddr>)>,
    now: u64,
) -> Moved {
    let s = lane.table.slots[i];
    match (s.phase, s.kind) {
        (PhaseView::CheckingKeys(h), KindView::Root(c)) => match missing {
            None => quiet(
                with_slot(lane, i, SlotView { phase: PhaseView::Judging(h), ..s }),
                Due::Judge(i as usize),
            ),
            Some((zone, servers)) => if h.fetches < MAX_KEY_FETCHES && population(lane) - 1
                < slot_max(cfg) {
                let g = HeldView {
                    fetches: h.fetches + 1,
                    tried: h.tried.push(fold_case(zone)),
                    ..h
                };
                if now < s.deadline {
                    let held = with_slot(
                        lane,
                        i,
                        SlotView { phase: PhaseView::FetchingKeys(g), ..s },
                    );
                    quiet(
                        LaneView {
                            table: held.table.added(key_search(i, s, zone, servers)),
                            ..held
                        },
                        Due::Start(held.table.next() as usize),
                    )
                } else {
                    quiet(
                        with_slot(lane, i, SlotView { phase: PhaseView::CheckingKeys(g), ..s }),
                        Due::CheckKeys(i as usize),
                    )
                }
            } else {
                retry_root(lane, i, c)
            },
        },
        _ => quiet(lane, Due::Nothing),
    }
}

/// Validation gave its verdict, or could not give one: then the question is asked
/// again the blocking way.
#[verifier::opaque]
pub open spec fn verdict_given(
    r: Recursor,
    lane: LaneView,
    i: int,
    status: Option<SecurityStatus>,
    now: u64,
) -> Moved {
    let s = lane.table.slots[i];
    match s.kind {
        KindView::Root(c) => match (s.phase, status) {
            (PhaseView::JudgingAlias(_, _), None) => retry_root(lane, i, c),
            (PhaseView::Judging(_), None) => retry_root(lane, i, c),
            (PhaseView::JudgingAlias(hop, m), Some(x)) => followed(
                lane,
                i,
                c,
                hop,
                m.questions,
                Some(x),
                now,
            ),
            (PhaseView::Judging(h), Some(x)) => answer_root(
                lane,
                i,
                c,
                given_out(r, s.session->0, c, h, Some(combined(c.acc_status, x))),
            ),
            _ => quiet(lane, Due::Nothing),
        },
        _ => quiet(lane, Due::Nothing),
    }
}

/// A search could not be started.
#[verifier::opaque]
pub open spec fn not_started(cfg: ReactorConfig, lane: LaneView, i: int, now: u64) -> Moved {
    let s = lane.table.slots[i];
    match s.phase {
        PhaseView::Starting(o) => match s.kind {
            KindView::Root(c) => if o.submitted {
                Moved {
                    lane: LaneView {
                        table: lane.table.taken(i),
                        failed: bumped(lane.failed, c.followers.len()),
                        ..lane
                    },
                    out: Seq::new(
                        c.followers.len(),
                        |k: int| CompletionView::Fail(c.followers[k], RecurseError::NoReachableNs),
                    ),
                    due: Due::Nothing,
                }
            } else {
                fail_root(lane, i, c, RecurseError::NoReachableNs)
            },
            KindView::Dnskey { parent, .. } => keys_fetched(lane, i, parent),
            KindView::NsAddr { parent } => end_slot(
                without_slot(lane, i),
                parent,
                Cause::Failed(RecurseError::NoReachableNs),
            ),
        },
        _ => quiet(lane, Due::Nothing),
    }
}

/// A new question.
pub open spec fn fresh_root(
    cfg: ReactorConfig,
    r: Recursor,
    qname: Seq<Seq<u8>>,
    qtype: u16,
    token: Token,
    now: u64,
) -> SlotView {
    SlotView {
        kind: KindView::Root(
            RootView {
                leader: token,
                followers: Seq::empty(),
                key: fold_case(qname),
                qtype,
                acc_answers: Seq::empty(),
                asked: None,
                cname_hops: 0,
                dname_hops: 0,
                acc_status: SecurityStatus::Secure,
            },
        ),
        session: None,
        phase: PhaseView::Starting(OrderView { qname, qtype, from: None, submitted: true }),
        ns_budget: r.max_ns_resolves as int,
        deadline: if now + cfg.session_budget <= u64::MAX {
            (now + cfg.session_budget) as u64
        } else {
            u64::MAX
        },
    }
}

/// The question at `i` is the one under this key.
pub open spec fn is_question(lane: LaneView, i: int, key: Seq<Seq<u8>>, qtype: u16) -> bool {
    &&& lane.table.has(i)
    &&& lane.table.slots[i].kind matches KindView::Root(c)
    &&& c.key == key
    &&& c.qtype == qtype
}

/// One more who waits for the question at `i`.
pub open spec fn joined(lane: LaneView, i: int, token: Token) -> LaneView {
    let s = lane.table.slots[i];
    let c = s.kind->Root_0;
    LaneView {
        merged: bumped(lane.merged, 1),
        ..with_slot(
            lane,
            i,
            SlotView {
                kind: KindView::Root(RootView { followers: c.followers.push(token), ..c }),
                ..s
            },
        )
    }
}

// ---- what holds at all times ----

/// The search waits for another one.
pub open spec fn awaits(s: SlotView) -> bool {
    s.phase is Parked || s.phase is FetchingKeys
}

/// How many aliases of the same kind were followed before this one.
pub open spec fn hops_so_far(c: RootView, hop: AliasHopView) -> int {
    if hop.atype == TYPE_DNAME {
        c.dname_hops
    } else {
        c.cname_hops
    }
}

/// The parts of an entry fit together: a search that is under way has a state, and
/// only questions of clients are validated.
pub open spec fn slot_ok(s: SlotView) -> bool {
    &&& !(s.phase is Starting) ==> s.session is Some
    &&& s.session matches Some(x) ==> 0 <= x.at <= x.ladder.len() && 0 <= x.steps <= x.step_cap
    &&& s.phase is FetchingKeys || s.phase is CheckingKeys || s.phase is JudgingAlias
        || s.phase is Judging ==> s.kind is Root
    &&& s.phase matches PhaseView::JudgingAlias(hop, _) ==> hops_so_far(s.kind->Root_0, hop)
        < usize::MAX
    &&& s.ns_budget >= 0
}

/// The search at `c` is for the sake of the one at `p`.
pub open spec fn is_child(t: TableView<SlotView>, c: int, p: int) -> bool {
    &&& t.has(c)
    &&& match t.slots[c].kind {
        KindView::Root(_) => false,
        KindView::NsAddr { parent } => parent == p,
        KindView::Dnskey { parent, .. } => parent == p,
    }
}

/// The search at `p` waits for just this one, has at least as much time, and could
/// cause more searches before it caused one for an address.
pub open spec fn is_awaited(t: TableView<SlotView>, c: int, p: int) -> bool {
    &&& t.has(p)
    &&& t.slots[c].deadline == t.slots[p].deadline
    &&& t.slots[c].kind is NsAddr ==> t.slots[p].phase is Parked && t.slots[c].ns_budget
        < t.slots[p].ns_budget
    &&& t.slots[c].kind is Dnskey ==> t.slots[p].phase is FetchingKeys
}

pub open spec fn same_question(a: SlotView, b: SlotView) -> bool {
    &&& a.kind is Root
    &&& b.kind is Root
    &&& a.kind->Root_0.key == b.kind->Root_0.key
    &&& a.kind->Root_0.qtype == b.kind->Root_0.qtype
}

/// What holds between the searches: one that waits has exactly one to wait for,
/// one that works for another is waited for, and where questions are joined, none
/// is there twice.
#[verifier::opaque]
pub open spec fn sound(cfg: ReactorConfig, t: TableView<SlotView>) -> bool {
    &&& t.consistent()
    &&& forall|i: int| #[trigger] t.has(i) ==> slot_ok(t.slots[i])
    &&& forall|c: int, p: int| #[trigger] is_child(t, c, p) ==> is_awaited(t, c, p)
    &&& forall|p: int|
        #[trigger] t.has(p) && awaits(t.slots[p]) ==> exists|c: int| #[trigger] is_child(t, c, p)
    &&& forall|c: int, d: int, p: int|
        #[trigger] is_child(t, c, p) && #[trigger] is_child(t, d, p) ==> c == d
    &&& cfg.singleflight ==> forall|i: int, j: int| #[trigger]
        t.has(i) && #[trigger] t.has(j) && same_question(t.slots[i], t.slots[j]) ==> i == j
}

/// A new entry in place of one that does not wait, and does not either.
proof fn lemma_replaced(cfg: ReactorConfig, t: TableView<SlotView>, i: int, s: SlotView)
    requires
        sound(cfg, t),
        t.has(i),
        !awaits(t.slots[i]),
        !awaits(s),
        slot_ok(s),
        s.kind == t.slots[i].kind || (same_question(s, t.slots[i])),
        s.deadline == t.slots[i].deadline,
        s.ns_budget == t.slots[i].ns_budget,
    ensures
        sound(cfg, t.replaced(i, s)),
{
    reveal(sound);
    let u = t.replaced(i, s);
    assert forall|k: int| #[trigger] u.has(k) == t.has(k) by {}
    assert(u.consistent());
    assert forall|c: int, p: int| #[trigger] is_child(u, c, p) == is_child(t, c, p) by {}
    assert forall|c: int, p: int| #[trigger] is_child(u, c, p) implies is_awaited(u, c, p) by {
        assert(is_child(t, c, p));
        assert(is_awaited(t, c, p));
    }
    assert forall|p: int| #[trigger] u.has(p) && awaits(u.slots[p]) implies exists|c: int|
        #[trigger] is_child(u, c, p) by {
        assert(t.has(p));
        let c = choose|c: int| #[trigger] is_child(t, c, p);
        assert(is_child(u, c, p));
    }
    assert forall|c: int, d: int, p: int| #[trigger] is_child(u, c, p) && #[trigger] is_child(
        u,
        d,
        p,
    ) implies c == d by {
        assert(is_child(t, c, p) && is_child(t, d, p));
    }
    if cfg.singleflight {
        assert forall|a: int, b: int| #[trigger] u.has(a) && #[trigger] u.has(b) && same_question(
            u.slots[a],
            u.slots[b],
        ) implies a == b by {
            assert(t.has(a) && t.has(b));
            assert(same_question(t.slots[a], t.slots[b]));
        }
    }
}

/// A question that waits for nothing leaves.
proof fn lemma_root_removed(cfg: ReactorConfig, t: TableView<SlotView>, i: int)
    requires
        sound(cfg, t),
        t.has(i),
        !awaits(t.slots[i]),
        t.slots[i].kind is Root,
    ensures
        sound(cfg, t.taken(i)),
{
    reveal(sound);
    lemma_taken(t, i);
    let u = t.taken(i);
    assert forall|c: int, p: int| #[trigger] is_child(u, c, p) implies is_awaited(u, c, p) by {
        assert(is_child(t, c, p));
        assert(is_awaited(t, c, p));
        assert(p != i);
    }
    assert forall|p: int| #[trigger] u.has(p) && awaits(u.slots[p]) implies exists|c: int|
        #[trigger] is_child(u, c, p) by {
        assert(t.has(p));
        let c = choose|c: int| #[trigger] is_child(t, c, p);
        assert(c != i);
        assert(is_child(u, c, p));
    }
    lemma_fewer(cfg, t, u);
}

proof fn lemma_taken(t: TableView<SlotView>, i: int)
    requires
        t.consistent(),
        t.has(i),
    ensures
        t.taken(i).consistent(),
        forall|k: int| #[trigger] t.taken(i).has(k) <==> t.has(k) && k != i,
        forall|k: int| k != i ==> t.taken(i).slots[k] == t.slots[k] || !t.has(k),
{
    let u = t.taken(i);
    assert(!t.free.contains(i));
    assert forall|a: int, b: int| 0 <= a < u.free.len() && 0 <= b < u.free.len() && a
        != b implies u.free[a] != u.free[b] by {
        if a < t.free.len() {
            assert(t.free.contains(t.free[a]));
        }
        if b < t.free.len() {
            assert(t.free.contains(t.free[b]));
        }
    }
    assert forall|k: int| #[trigger] u.has(k) <==> 0 <= k < u.high && !u.free.contains(k) by {
        assert(u.has(k) <==> t.has(k) && k != i);
        if t.free.contains(k) {
            let n = choose|n: int| 0 <= n < t.free.len() && t.free[n] == k;
            assert(u.free[n] == k);
        }
        if u.free.contains(k) {
            let n = choose|n: int| 0 <= n < u.free.len() && u.free[n] == k;
            if n < t.free.len() {
                assert(t.free[n] == k);
            }
        }
        assert(u.free[t.free.len() as int] == i);
        assert(u.free.contains(i));
    }
}

proof fn lemma_added(t: TableView<SlotView>, s: SlotView)
    requires
        t.consistent(),
    ensures
        t.added(s).consistent(),
        !t.has(t.next()),
        forall|k: int| #[trigger] t.added(s).has(k) <==> t.has(k) || k == t.next(),
        forall|k: int| t.has(k) ==> t.added(s).slots[k] == t.slots[k],
        t.added(s).slots[t.next()] == s,
{
    let u = t.added(s);
    crate::table::lemma_next_is_unused(t);
    assert forall|k: int| #[trigger] u.has(k) <==> 0 <= k < u.high && !u.free.contains(k) by {
        assert(u.has(k) <==> t.has(k) || k == t.next());
        if t.free.len() > 0 {
            let last = t.free.len() - 1;
            if t.free.contains(k) && k != t.free.last() {
                let n = choose|n: int| 0 <= n < t.free.len() && t.free[n] == k;
                assert(u.free[n] == k);
            }
            if u.free.contains(k) {
                let n = choose|n: int| 0 <= n < u.free.len() && u.free[n] == k;
                assert(t.free[n] == k);
                assert(t.free[n] != t.free[last]);
            }
        }
    }
}

/// With fewer entries, the uniqueness of children and of questions stays.
proof fn lemma_fewer(cfg: ReactorConfig, t: TableView<SlotView>, u: TableView<SlotView>)
    requires
        sound(cfg, t),
        u.consistent(),
        forall|k: int| #[trigger] u.has(k) ==> t.has(k) && u.slots[k] == t.slots[k],
        forall|c: int, p: int| #[trigger] is_child(u, c, p) ==> is_awaited(u, c, p),
        forall|p: int|
            #[trigger] u.has(p) && awaits(u.slots[p]) ==> exists|c: int| #[trigger] is_child(
                u,
                c,
                p,
            ),
    ensures
        sound(cfg, u),
{
    reveal(sound);
    assert forall|c: int, d: int, p: int| #[trigger] is_child(u, c, p) && #[trigger] is_child(
        u,
        d,
        p,
    ) implies c == d by {
        assert(is_child(t, c, p) && is_child(t, d, p));
    }
    if cfg.singleflight {
        assert forall|a: int, b: int| #[trigger] u.has(a) && #[trigger] u.has(b) && same_question(
            u.slots[a],
            u.slots[b],
        ) implies a == b by {
            assert(t.has(a) && t.has(b));
        }
    }
}

/// A child leaves, and its parent waits no more.
proof fn lemma_child_removed(
    cfg: ReactorConfig,
    t: TableView<SlotView>,
    c: int,
    p: int,
    s: SlotView,
)
    requires
        sound(cfg, t),
        is_child(t, c, p),
        !awaits(t.slots[c]),
        !awaits(s),
        slot_ok(s),
        s.kind == t.slots[p].kind,
        s.deadline == t.slots[p].deadline,
        s.ns_budget == t.slots[p].ns_budget,
    ensures
        c != p,
        t.has(p),
        t.taken(c).has(p),
        t.taken(c).slots[p] == t.slots[p],
        sound(cfg, t.taken(c).replaced(p, s)),
{
    reveal(sound);
    lemma_taken(t, c);
    assert(is_awaited(t, c, p));
    assert(awaits(t.slots[p]));
    let u = t.taken(c).replaced(p, s);
    assert forall|k: int| #[trigger] u.has(k) == (t.has(k) && k != c) by {
        assert(t.taken(c).has(k) == (t.has(k) && k != c));
    }
    assert(u.consistent()) by {
        let v = t.taken(c);
        assert forall|k: int| #[trigger] u.has(k) <==> 0 <= k < u.high && !u.free.contains(k) by {
            assert(v.has(k) == u.has(k));
        }
    }
    assert forall|x: int, q: int| #[trigger] is_child(u, x, q) implies is_child(t, x, q) && x
        != c by {}
    assert forall|x: int, q: int| #[trigger] is_child(u, x, q) implies is_awaited(u, x, q) by {
        assert(is_child(t, x, q));
        assert(is_awaited(t, x, q));
        if q == p {
            assert(is_child(t, c, p) && is_child(t, x, p));
        }
        assert(q != c);
    }
    assert forall|q: int| #[trigger] u.has(q) && awaits(u.slots[q]) implies exists|x: int|
        #[trigger] is_child(u, x, q) by {
        assert(q != p);
        assert(t.has(q));
        let x = choose|x: int| #[trigger] is_child(t, x, q);
        assert(x != c);
        assert(is_child(u, x, q));
    }
    assert forall|x: int, d: int, q: int| #[trigger] is_child(u, x, q) && #[trigger] is_child(
        u,
        d,
        q,
    ) implies x == d by {
        assert(is_child(t, x, q) && is_child(t, d, q));
    }
    assert forall|k: int| #[trigger] u.has(k) implies slot_ok(u.slots[k]) by {
        assert(t.has(k));
    }
    if cfg.singleflight {
        assert forall|a: int, b: int| #[trigger] u.has(a) && #[trigger] u.has(b) && same_question(
            u.slots[a],
            u.slots[b],
        ) implies a == b by {
            assert(t.has(a) && t.has(b));
            assert(same_question(t.slots[a], t.slots[b]));
        }
    }
}

/// An entry that does not wait begins to wait for a new one.
proof fn lemma_child_added(
    cfg: ReactorConfig,
    t: TableView<SlotView>,
    p: int,
    s: SlotView,
    child: SlotView,
)
    requires
        sound(cfg, t),
        t.has(p),
        !awaits(t.slots[p]),
        awaits(s),
        slot_ok(s),
        s.kind == t.slots[p].kind,
        s.deadline == t.slots[p].deadline,
        s.ns_budget == t.slots[p].ns_budget,
        slot_ok(child),
        !awaits(child),
        child.deadline == s.deadline,
        match child.kind {
            KindView::Root(_) => false,
            KindView::NsAddr { parent } => parent == p && s.phase is Parked && child.ns_budget
                < s.ns_budget,
            KindView::Dnskey { parent, .. } => parent == p && s.phase is FetchingKeys,
        },
    ensures
        sound(cfg, t.replaced(p, s).added(child)),
        t.replaced(p, s).next() == t.next(),
        t.next() != p,
{
    reveal(sound);
    let v = t.replaced(p, s);
    assert(v.consistent()) by {
        assert forall|k: int| #[trigger] v.has(k) <==> 0 <= k < v.high && !v.free.contains(k) by {
            assert(v.has(k) == t.has(k));
        }
    }
    lemma_added(v, child);
    let u = v.added(child);
    let n = v.next();
    assert(!t.has(n)) by {
        assert(v.has(n) == t.has(n));
    }
    assert forall|k: int| #[trigger] u.has(k) == (t.has(k) || k == n) by {
        assert(v.has(k) == t.has(k));
    }
    assert(is_child(u, n, p));
    assert forall|x: int, q: int| #[trigger] is_child(u, x, q) implies (x == n && q == p)
        || is_child(t, x, q) by {}
    assert forall|x: int, q: int| #[trigger] is_child(t, x, q) implies q != p by {
        assert(is_awaited(t, x, q));
    }
    assert forall|x: int, q: int| #[trigger] is_child(u, x, q) implies is_awaited(u, x, q) by {
        if !(x == n && q == p) {
            assert(is_child(t, x, q));
            assert(is_awaited(t, x, q));
        }
    }
    assert forall|q: int| #[trigger] u.has(q) && awaits(u.slots[q]) implies exists|x: int|
        #[trigger] is_child(u, x, q) by {
        if q == p {
            assert(is_child(u, n, p));
        } else {
            assert(t.has(q));
            let x = choose|x: int| #[trigger] is_child(t, x, q);
            assert(is_child(u, x, q));
        }
    }
    assert forall|x: int, d: int, q: int| #[trigger] is_child(u, x, q) && #[trigger] is_child(
        u,
        d,
        q,
    ) implies x == d by {}
    assert forall|k: int| #[trigger] u.has(k) implies slot_ok(u.slots[k]) by {
        if k != n {
            assert(t.has(k));
        }
    }
    if cfg.singleflight {
        assert forall|a: int, b: int| #[trigger] u.has(a) && #[trigger] u.has(b) && same_question(
            u.slots[a],
            u.slots[b],
        ) implies a == b by {
            assert(t.has(a) && t.has(b));
            assert(same_question(t.slots[a], t.slots[b]));
        }
    }
}

/// A new question comes in that is not there yet.
proof fn lemma_root_added(cfg: ReactorConfig, t: TableView<SlotView>, s: SlotView)
    requires
        sound(cfg, t),
        s.kind is Root,
        slot_ok(s),
        !awaits(s),
        cfg.singleflight ==> forall|i: int| #[trigger]
            t.has(i) ==> !same_question(t.slots[i], s),
    ensures
        sound(cfg, t.added(s)),
{
    reveal(sound);
    lemma_added(t, s);
    let u = t.added(s);
    let n = t.next();
    assert forall|c: int, p: int| #[trigger] is_child(u, c, p) implies is_child(t, c, p) by {}
    assert forall|c: int, p: int| #[trigger] is_child(u, c, p) implies is_awaited(u, c, p) by {
        assert(is_child(t, c, p));
        assert(is_awaited(t, c, p));
    }
    assert forall|p: int| #[trigger] u.has(p) && awaits(u.slots[p]) implies exists|c: int|
        #[trigger] is_child(u, c, p) by {
        assert(t.has(p));
        let c = choose|c: int| #[trigger] is_child(t, c, p);
        assert(is_child(u, c, p));
    }
    assert forall|c: int, d: int, p: int| #[trigger] is_child(u, c, p) && #[trigger] is_child(
        u,
        d,
        p,
    ) implies c == d by {
        assert(is_child(t, c, p) && is_child(t, d, p));
    }
    assert forall|k: int| #[trigger] u.has(k) implies slot_ok(u.slots[k]) by {
        if k != n {
            assert(t.has(k));
        }
    }
    if cfg.singleflight {
        assert forall|a: int, b: int| #[trigger] u.has(a) && #[trigger] u.has(b) && same_question(
            u.slots[a],
            u.slots[b],
        ) implies a == b by {
            if a == n && b != n {
                assert(t.has(b));
                assert(same_question(t.slots[b], s));
            } else if b == n && a != n {
                assert(t.has(a));
            } else if a != n {
                assert(t.has(a) && t.has(b));
            }
        }
    }
}

// ---- who is told what ----

pub open spec fn token_of(c: CompletionView) -> Token {
    match c {
        CompletionView::Answer(t, _) => t,
        CompletionView::Fail(t, _) => t,
        CompletionView::Retry(t) => t,
    }
}

/// Somebody waits under this token.
pub open spec fn waits(t: TableView<SlotView>, token: Token) -> bool {
    exists|i: int| #[trigger] t.has(i) && waits_at(t.slots[i], token)
}

pub open spec fn waits_at(s: SlotView, token: Token) -> bool {
    s.kind is Root && tokens(s.kind->Root_0).contains(token)
}

/// Somebody was told how it ended.
pub open spec fn told(out: Seq<CompletionView>, token: Token) -> bool {
    exists|k: int| 0 <= k < out.len() && token_of(#[trigger] out[k]) == token
}

/// Nobody is forgotten: who waited waits on or was told, and only who waited was
/// told.
#[verifier::opaque]
pub open spec fn accounted(
    before: TableView<SlotView>,
    after: TableView<SlotView>,
    out: Seq<CompletionView>,
) -> bool {
    forall|token: Token|
        {
            &&& #[trigger] waits(before, token) ==> waits(after, token) || told(out, token)
            &&& told(out, token) ==> waits(before, token)
            &&& waits(after, token) ==> waits(before, token)
        }
}

proof fn lemma_nobody_told(t: TableView<SlotView>, u: TableView<SlotView>)
    requires
        forall|i: int, token: Token|
            #![trigger waits_at(t.slots[i], token)]
            t.has(i) && waits_at(t.slots[i], token) ==> u.has(i) && waits_at(u.slots[i], token),
        forall|i: int, token: Token|
            #![trigger waits_at(u.slots[i], token)]
            u.has(i) && waits_at(u.slots[i], token) ==> t.has(i) && waits_at(t.slots[i], token),
    ensures
        accounted(t, u, Seq::empty()),
{
    reveal(accounted);
    assert forall|token: Token|
        {
            &&& #[trigger] waits(t, token) ==> waits(u, token) || told(Seq::empty(), token)
            &&& told(Seq::empty(), token) ==> waits(t, token)
            &&& waits(u, token) ==> waits(t, token)
        } by {
        if waits(t, token) {
            let i = choose|i: int| #[trigger] t.has(i) && waits_at(t.slots[i], token);
            assert(u.has(i) && waits_at(u.slots[i], token));
        }
        if waits(u, token) {
            let i = choose|i: int| #[trigger] u.has(i) && waits_at(u.slots[i], token);
            assert(t.has(i) && waits_at(t.slots[i], token));
        }
    }
}

/// The entry at `i` changes, and nobody comes or goes.
proof fn lemma_same_tokens(t: TableView<SlotView>, i: int, s: SlotView)
    requires
        t.has(i),
        forall|token: Token| waits_at(s, token) == waits_at(t.slots[i], token),
    ensures
        accounted(t, t.replaced(i, s), Seq::empty()),
{
    let u = t.replaced(i, s);
    assert forall|k: int| #[trigger] u.has(k) == t.has(k) by {}
    lemma_nobody_told(t, u);
}

/// An entry comes that nobody waits for.
proof fn lemma_child_waits_for_nobody(t: TableView<SlotView>, child: SlotView)
    requires
        t.consistent(),
        !(child.kind is Root),
    ensures
        accounted(t, t.added(child), Seq::empty()),
{
    lemma_added(t, child);
    lemma_nobody_told(t, t.added(child));
}

/// An entry goes that nobody waits for.
proof fn lemma_child_leaves(t: TableView<SlotView>, i: int)
    requires
        t.consistent(),
        t.has(i),
        !(t.slots[i].kind is Root),
    ensures
        accounted(t, t.taken(i), Seq::empty()),
{
    lemma_taken(t, i);
    lemma_nobody_told(t, t.taken(i));
}

proof fn lemma_accounted_twice(
    t: TableView<SlotView>,
    u: TableView<SlotView>,
    v: TableView<SlotView>,
)
    requires
        accounted(t, u, Seq::empty()),
        accounted(u, v, Seq::empty()),
    ensures
        accounted(t, v, Seq::empty()),
{
    reveal(accounted);
    assert forall|token: Token|
        {
            &&& #[trigger] waits(t, token) ==> waits(v, token) || told(Seq::empty(), token)
            &&& told(Seq::empty(), token) ==> waits(t, token)
            &&& waits(v, token) ==> waits(t, token)
        } by {
        assert(waits(u, token) == waits(u, token));
    }
}

/// A question leaves, and all who waited for it are told.
proof fn lemma_root_leaves(t: TableView<SlotView>, i: int, out: Seq<CompletionView>)
    requires
        t.consistent(),
        t.has(i),
        t.slots[i].kind is Root,
        ({
            let w = tokens(t.slots[i].kind->Root_0);
            &&& out.len() == w.len()
            &&& forall|k: int| 0 <= k < w.len() ==> token_of(#[trigger] out[k]) == w[k]
        }),
    ensures
        accounted(t, t.taken(i), out),
{
    reveal(accounted);
    lemma_taken(t, i);
    let u = t.taken(i);
    let w = tokens(t.slots[i].kind->Root_0);
    assert forall|token: Token|
        {
            &&& #[trigger] waits(t, token) ==> waits(u, token) || told(out, token)
            &&& told(out, token) ==> waits(t, token)
            &&& waits(u, token) ==> waits(t, token)
        } by {
        if waits(t, token) {
            let j = choose|j: int| #[trigger] t.has(j) && waits_at(t.slots[j], token);
            if j == i {
                let k = choose|k: int| 0 <= k < w.len() && w[k] == token;
                assert(token_of(out[k]) == token);
            } else {
                assert(u.has(j) && waits_at(u.slots[j], token));
            }
        }
        if told(out, token) {
            let k = choose|k: int| 0 <= k < out.len() && token_of(#[trigger] out[k]) == token;
            assert(w[k] == token);
            assert(t.has(i) && waits_at(t.slots[i], token));
        }
        if waits(u, token) {
            let j = choose|j: int| #[trigger] u.has(j) && waits_at(u.slots[j], token);
            assert(t.has(j) && waits_at(t.slots[j], token));
        }
    }
}

proof fn lemma_spawn(
    cfg: ReactorConfig,
    lane: LaneView,
    parent: int,
    parked: ParkedView,
    qname: Seq<Seq<u8>>,
    now: u64,
)
    requires
        sound(cfg, lane.table),
        lane.table.has(parent),
        !awaits(lane.table.slots[parent]),
        lane.table.slots[parent].session is Some,
    ensures
        ({
            let m = spawn_child(cfg, lane, parent, parked, qname, now);
            sound(cfg, m.lane.table) && accounted(lane.table, m.lane.table, m.out)
        }),
{
    reveal(sound);
    reveal(spawn_child);
    let t = lane.table;
    let p = t.slots[parent];
    if p.ns_budget >= 1 && population(lane) < slot_max(cfg) && now < p.deadline {
        let s = SlotView { phase: PhaseView::Parked(parked), ..p };
        let child = address_search(parent, p, qname);
        lemma_child_added(cfg, t, parent, s, child);
        lemma_same_tokens(t, parent, s);
        let v = t.replaced(parent, s);
        assert(v.consistent()) by {
            assert forall|k: int| #[trigger] v.has(k) <==> 0 <= k < v.high && !v.free.contains(
                k,
            ) by {
                assert(v.has(k) == t.has(k));
            }
        }
        lemma_child_waits_for_nobody(v, child);
        lemma_accounted_twice(t, v, v.added(child));
    } else {
        lemma_end_slot(cfg, lane, parent, Cause::Failed(RecurseError::NoReachableNs));
    }
}

proof fn lemma_end_slot(cfg: ReactorConfig, lane: LaneView, i: int, cause: Cause)
    requires
        sound(cfg, lane.table),
        lane.table.has(i),
        !awaits(lane.table.slots[i]),
        lane.table.slots[i].session is Some,
    ensures
        sound(cfg, end_slot(lane, i, cause).lane.table),
        accounted(lane.table, end_slot(lane, i, cause).lane.table, Seq::empty()),
{
    reveal(sound);
    let s = SlotView { phase: PhaseView::Ended(cause), ..lane.table.slots[i] };
    lemma_replaced(cfg, lane.table, i, s);
    lemma_same_tokens(lane.table, i, s);
}

/// A child that is over leaves, and its parent goes on.
proof fn lemma_child_over(cfg: ReactorConfig, t: TableView<SlotView>, c: int, p: int, s: SlotView)
    requires
        sound(cfg, t),
        is_child(t, c, p),
        !awaits(t.slots[c]),
        !awaits(s),
        slot_ok(s),
        s.kind == t.slots[p].kind,
        s.deadline == t.slots[p].deadline,
        s.ns_budget == t.slots[p].ns_budget,
    ensures
        c != p,
        t.has(p),
        t.taken(c).slots[p] == t.slots[p],
        sound(cfg, t.taken(c).replaced(p, s)),
        accounted(t, t.taken(c).replaced(p, s), Seq::empty()),
{
    reveal(sound);
    lemma_child_removed(cfg, t, c, p, s);
    lemma_child_leaves(t, c);
    lemma_same_tokens(t.taken(c), p, s);
    lemma_accounted_twice(t, t.taken(c), t.taken(c).replaced(p, s));
}

proof fn lemma_addresses_found(
    cfg: ReactorConfig,
    lane: LaneView,
    i: int,
    parent: int,
    addrs: Seq<SocketAddr>,
    ttl: Option<u32>,
    now: u64,
)
    requires
        sound(cfg, lane.table),
        is_child(lane.table, i, parent),
        lane.table.slots[i].kind is NsAddr,
        !awaits(lane.table.slots[i]),
    ensures
        ({
            let m = addresses_found(cfg, lane, i, parent, addrs, ttl, now);
            sound(cfg, m.lane.table) && accounted(lane.table, m.lane.table, m.out)
        }),
{
    reveal(sound);
    reveal(addresses_found);
    reveal(spawn_child);
    let t = lane.table;
    assert(is_awaited(t, i, parent));
    assert(t.has(parent) && slot_ok(t.slots[parent]));
    let p = t.slots[parent];
    let k = p.phase->Parked_0;
    let more = ParkedView { addrs: k.addrs + addrs, addr_ttl: min_ttl(k.addr_ttl, ttl), ..k };
    let idle = SlotView { phase: PhaseView::Resuming(more), ..p };
    lemma_child_over(cfg, t, i, parent, idle);
    if more.next_missing < more.missing.len() && more.children_spawned < MAX_CHILDREN {
        let rest = without_slot(lane, i);
        let mid = with_slot(rest, parent, idle);
        let next = ParkedView {
            next_missing: more.next_missing + 1,
            children_spawned: more.children_spawned + 1,
            ..more
        };
        let name = more.missing[more.next_missing];
        lemma_spawn(cfg, mid, parent, next, name, now);
        let a = spawn_child(cfg, mid, parent, next, name, now);
        let b = spawn_child(cfg, rest, parent, next, name, now);
        assert(mid.table.slots.dom() =~= rest.table.slots.dom()) by {
            lemma_taken(t, i);
            assert(rest.table.has(parent));
        }
        assert forall|x: SlotView| mid.table.replaced(parent, x) == #[trigger] rest.table.replaced(
            parent,
            x,
        ) by {
            assert(mid.table.slots.insert(parent, x) =~= rest.table.slots.insert(parent, x));
        }
        let held = SlotView { phase: PhaseView::Parked(next), ..p };
        let over = SlotView {
            phase: PhaseView::Ended(Cause::Failed(RecurseError::NoReachableNs)),
            ..p
        };
        assert(mid.table.replaced(parent, held) == rest.table.replaced(parent, held));
        assert(mid.table.replaced(parent, over) == rest.table.replaced(parent, over));
        assert(a.lane.table == b.lane.table);
        assert(a.out =~= Seq::<CompletionView>::empty());
        assert(b.out =~= Seq::<CompletionView>::empty());
        lemma_accounted_twice(t, mid.table, b.lane.table);
    }
}

proof fn lemma_keys_fetched(cfg: ReactorConfig, lane: LaneView, i: int, parent: int)
    requires
        sound(cfg, lane.table),
        is_child(lane.table, i, parent),
        lane.table.slots[i].kind is Dnskey,
        !awaits(lane.table.slots[i]),
    ensures
        ({
            let m = keys_fetched(lane, i, parent);
            sound(cfg, m.lane.table) && accounted(lane.table, m.lane.table, m.out)
        }),
{
    reveal(sound);
    reveal(keys_fetched);
    let t = lane.table;
    assert(is_awaited(t, i, parent));
    assert(t.has(parent) && slot_ok(t.slots[parent]));
    let p = t.slots[parent];
    let h = p.phase->FetchingKeys_0;
    lemma_child_over(cfg, t, i, parent, SlotView { phase: PhaseView::CheckingKeys(h), ..p });
}

proof fn lemma_followed(
    cfg: ReactorConfig,
    lane: LaneView,
    i: int,
    c: RootView,
    hop: AliasHopView,
    questions: Seq<QuestionView>,
    status: Option<SecurityStatus>,
    now: u64,
)
    requires
        sound(cfg, lane.table),
        lane.table.has(i),
        !awaits(lane.table.slots[i]),
        lane.table.slots[i].kind == KindView::Root(c),
    ensures
        ({
            let m = followed(lane, i, c, hop, questions, status, now);
            sound(cfg, m.lane.table) && accounted(lane.table, m.lane.table, m.out)
        }),
{
    reveal(sound);
    reveal(followed);
    let m = followed(lane, i, c, hop, questions, status, now);
    let s = lane.table.slots[i];
    if now >= s.deadline {
        lemma_root_removed(cfg, lane.table, i);
        lemma_root_leaves(lane.table, i, m.out);
    } else {
        let n = m.lane.table.slots[i];
        lemma_replaced(cfg, lane.table, i, n);
        lemma_same_tokens(lane.table, i, n);
    }
}

/// The end of a search keeps the searches sound, and nobody who waits is
/// forgotten.
pub proof fn law_settling_forgets_nobody(
    r: Recursor,
    cfg: ReactorConfig,
    lane: LaneView,
    i: int,
    end: SessionEndView,
    now: u64,
)
    requires
        sound(cfg, lane.table),
        lane.table.has(i),
        lane.table.slots[i].phase is Searching,
    ensures
        ({
            let m = settled(r, cfg, lane, i, end, now);
            sound(cfg, m.lane.table) && accounted(lane.table, m.lane.table, m.out)
        }),
{
    reveal(sound);
    let t = lane.table;
    let s = t.slots[i];
    match end {
        SessionEndView::NeedAddrs { missing, pending } => {
            if missing.len() == 0 {
                lemma_end_slot(cfg, lane, i, Cause::Failed(RecurseError::NoReachableNs));
            } else {
                lemma_spawn(
                    cfg,
                    lane,
                    i,
                    ParkedView {
                        pending,
                        missing,
                        next_missing: 1,
                        addrs: Seq::empty(),
                        addr_ttl: None,
                        children_spawned: 1,
                    },
                    missing[0],
                    now,
                );
            }
        },
        SessionEndView::Failed(e) => {
            lemma_end_slot(cfg, lane, i, Cause::Failed(e));
        },
        SessionEndView::NeedsSync => {
            lemma_end_slot(cfg, lane, i, Cause::NeedsSync);
        },
        SessionEndView::Done(m) => match s.kind {
            KindView::Root(c) => {
                lemma_root_answered(r, cfg, lane, i, m, now);
            },
            KindView::Dnskey { parent, .. } => {
                assert(is_child(t, i, parent));
                lemma_keys_fetched(cfg, lane, i, parent);
            },
            KindView::NsAddr { parent } => {
                assert(is_child(t, i, parent));
                let found = found_addresses(r, m);
                lemma_addresses_found(cfg, lane, i, parent, found.0, found.1, now);
            },
        },
    }
}

proof fn lemma_root_answered(
    r: Recursor,
    cfg: ReactorConfig,
    lane: LaneView,
    i: int,
    m: MessageView,
    now: u64,
)
    requires
        sound(cfg, lane.table),
        lane.table.has(i),
        lane.table.slots[i].phase is Searching,
        lane.table.slots[i].kind is Root,
    ensures
        ({
            let v = root_answered(r, lane, i, m, now);
            sound(cfg, v.lane.table) && accounted(lane.table, v.lane.table, v.out)
        }),
{
    reveal(sound);
    reveal(root_answered);
    let t = lane.table;
    let s = t.slots[i];
    let c = s.kind->Root_0;
    let x = s.session->0;
    let v = root_answered(r, lane, i, m, now);
    lemma_root_removed(cfg, t, i);
    match reading_of(c.asked is None, m, x.qname, x.qtype) {
        Reading::Answer(_) => {
            lemma_root_leaves(t, i, v.out);
        },
        Reading::Follow(hop) => {
            let n = SlotView { phase: PhaseView::JudgingAlias(hop, m), ..s };
            if hops_so_far(c, hop) < usize::MAX {
                lemma_replaced(cfg, t, i, n);
                lemma_same_tokens(t, i, n);
            }
            lemma_followed(cfg, lane, i, c, hop, m.questions, None, now);
            let a = fail_root(lane, i, c, RecurseError::TooManyDnames).out;
            lemma_root_leaves(t, i, a);
            let b = fail_root(lane, i, c, RecurseError::TooManyCnames).out;
            lemma_root_leaves(t, i, b);
        },
        Reading::End { .. } => {
            if r.trust_anchors@.len() > 0 {
                let n = v.lane.table.slots[i];
                lemma_replaced(cfg, t, i, n);
                lemma_same_tokens(t, i, n);
            } else {
                lemma_root_leaves(t, i, v.out);
            }
        },
    }
}

/// Putting an end to a search keeps the searches sound, and nobody who waits is
/// forgotten.
pub proof fn law_finishing_forgets_nobody(cfg: ReactorConfig, lane: LaneView, i: int, now: u64)
    requires
        sound(cfg, lane.table),
        lane.table.has(i),
        lane.table.slots[i].phase is Ended,
    ensures
        ({
            let m = finished(cfg, lane, i, now);
            sound(cfg, m.lane.table) && accounted(lane.table, m.lane.table, m.out)
        }),
{
    reveal(sound);
    let t = lane.table;
    let s = t.slots[i];
    let m = finished(cfg, lane, i, now);
    match s.kind {
        KindView::Root(c) => {
            lemma_root_removed(cfg, t, i);
            lemma_root_leaves(t, i, m.out);
        },
        KindView::Dnskey { parent, .. } => {
            assert(is_child(t, i, parent));
            lemma_keys_fetched(cfg, lane, i, parent);
        },
        KindView::NsAddr { parent } => {
            assert(is_child(t, i, parent));
            lemma_addresses_found(cfg, lane, i, parent, Seq::empty(), None, now);
            assert(is_awaited(t, i, parent));
            assert(slot_ok(t.slots[parent]));
            lemma_child_over(
                cfg,
                t,
                i,
                parent,
                SlotView { phase: PhaseView::Ended(Cause::NeedsSync), ..t.slots[parent] },
            );
        },
    }
}

/// Looking for missing keys keeps the searches sound, and nobody who waits is
/// forgotten.
pub proof fn law_checking_keys_forgets_nobody(
    cfg: ReactorConfig,
    lane: LaneView,
    i: int,
    missing: Option<(Seq<Seq<u8>>, Seq<SocketAddr>)>,
    now: u64,
)
    requires
        sound(cfg, lane.table),
        lane.table.has(i),
        lane.table.slots[i].phase is CheckingKeys,
    ensures
        ({
            let m = keys_checked(cfg, lane, i, missing, now);
            sound(cfg, m.lane.table) && accounted(lane.table, m.lane.table, m.out)
        }),
{
    reveal(sound);
    reveal(keys_checked);
    let t = lane.table;
    let s = t.slots[i];
    let h = s.phase->CheckingKeys_0;
    let m = keys_checked(cfg, lane, i, missing, now);
    match missing {
        None => {
            let n = SlotView { phase: PhaseView::Judging(h), ..s };
            lemma_replaced(cfg, t, i, n);
            lemma_same_tokens(t, i, n);
        },
        Some((zone, servers)) => {
            if h.fetches < MAX_KEY_FETCHES && population(lane) - 1 < slot_max(cfg) {
                let g = HeldView {
                    fetches: h.fetches + 1,
                    tried: h.tried.push(fold_case(zone)),
                    ..h
                };
                if now < s.deadline {
                    let n = SlotView { phase: PhaseView::FetchingKeys(g), ..s };
                    let child = key_search(i, s, zone, servers);
                    lemma_child_added(cfg, t, i, n, child);
                    lemma_same_tokens(t, i, n);
                    let v = t.replaced(i, n);
                    assert(v.consistent()) by {
                        assert forall|k: int| #[trigger] v.has(k) <==> 0 <= k < v.high
                            && !v.free.contains(k) by {
                            assert(v.has(k) == t.has(k));
                        }
                    }
                    lemma_child_waits_for_nobody(v, child);
                    lemma_accounted_twice(t, v, v.added(child));
                } else {
                    let n = SlotView { phase: PhaseView::CheckingKeys(g), ..s };
                    lemma_replaced(cfg, t, i, n);
                    lemma_same_tokens(t, i, n);
                }
            } else {
                lemma_root_removed(cfg, t, i);
                lemma_root_leaves(t, i, m.out);
            }
        },
    }
}

/// A verdict keeps the searches sound, and nobody who waits is forgotten.
pub proof fn law_a_verdict_forgets_nobody(
    r: Recursor,
    cfg: ReactorConfig,
    lane: LaneView,
    i: int,
    status: Option<SecurityStatus>,
    now: u64,
)
    requires
        sound(cfg, lane.table),
        lane.table.has(i),
        lane.table.slots[i].phase is Judging || lane.table.slots[i].phase is JudgingAlias,
    ensures
        ({
            let m = verdict_given(r, lane, i, status, now);
            sound(cfg, m.lane.table) && accounted(lane.table, m.lane.table, m.out)
        }),
{
    reveal(sound);
    reveal(verdict_given);
    let t = lane.table;
    let s = t.slots[i];
    let c = s.kind->Root_0;
    let m = verdict_given(r, lane, i, status, now);
    match (s.phase, status) {
        (PhaseView::JudgingAlias(hop, m), Some(x)) => {
            lemma_followed(cfg, lane, i, c, hop, m.questions, Some(x), now);
        },
        _ => {
            lemma_root_removed(cfg, t, i);
            lemma_root_leaves(t, i, m.out);
        },
    }
}

/// A search that cannot start keeps the searches sound, and nobody who waits is
/// forgotten, except that whoever handed a question in just now is told by the one
/// who took it.
pub proof fn law_a_failed_start_forgets_nobody(cfg: ReactorConfig, lane: LaneView, i: int, now: u64)
    requires
        sound(cfg, lane.table),
        lane.table.has(i),
        lane.table.slots[i].phase is Starting,
    ensures
        ({
            let m = not_started(cfg, lane, i, now);
            let s = lane.table.slots[i];
            &&& sound(cfg, m.lane.table)
            &&& !(s.phase->Starting_0.submitted && s.kind is Root) ==> accounted(
                lane.table,
                m.lane.table,
                m.out,
            )
            &&& s.phase->Starting_0.submitted && s.kind is Root ==> forall|k: int|
                0 <= k < s.kind->Root_0.followers.len() ==> told(
                    m.out,
                    #[trigger] s.kind->Root_0.followers[k],
                )
        }),
{
    reveal(sound);
    reveal(not_started);
    let t = lane.table;
    let s = t.slots[i];
    let m = not_started(cfg, lane, i, now);
    match s.kind {
        KindView::Root(c) => {
            lemma_root_removed(cfg, t, i);
            if s.phase->Starting_0.submitted {
                assert forall|k: int| 0 <= k < c.followers.len() implies told(
                    m.out,
                    #[trigger] c.followers[k],
                ) by {
                    assert(token_of(m.out[k]) == c.followers[k]);
                }
            } else {
                lemma_root_leaves(t, i, m.out);
            }
        },
        KindView::Dnskey { parent, .. } => {
            assert(is_child(t, i, parent));
            lemma_keys_fetched(cfg, lane, i, parent);
        },
        KindView::NsAddr { parent } => {
            assert(is_child(t, i, parent));
            assert(is_awaited(t, i, parent));
            assert(slot_ok(t.slots[parent]));
            lemma_child_over(
                cfg,
                t,
                i,
                parent,
                SlotView {
                    phase: PhaseView::Ended(Cause::Failed(RecurseError::NoReachableNs)),
                    ..t.slots[parent]
                },
            );
        },
    }
}

/// Joining a question that is under way keeps the searches sound, and adds the one
/// who joins to those who wait.
pub proof fn law_joining_adds_one_who_waits(
    cfg: ReactorConfig,
    lane: LaneView,
    i: int,
    key: Seq<Seq<u8>>,
    qtype: u16,
    token: Token,
)
    requires
        sound(cfg, lane.table),
        is_question(lane, i, key, qtype),
    ensures
        ({
            let u = joined(lane, i, token).table;
            &&& sound(cfg, u)
            &&& waits(u, token)
            &&& forall|x: Token| x != token ==> #[trigger] waits(u, x) == waits(lane.table, x)
        }),
{
    reveal(sound);
    let t = lane.table;
    let s = t.slots[i];
    let c = s.kind->Root_0;
    let u = joined(lane, i, token).table;
    let n = u.slots[i];
    let d = n.kind->Root_0;
    if awaits(s) {
        lemma_replaced_waiting(cfg, t, i, n);
    } else {
        lemma_replaced(cfg, t, i, n);
    }
    assert forall|k: int| #[trigger] u.has(k) == t.has(k) by {}
    assert(tokens(d).contains(token)) by {
        assert(tokens(d)[c.followers.len() as int] == token);
    }
    assert(u.has(i) && waits_at(u.slots[i], token));
    assert forall|x: Token| x != token implies #[trigger] waits(u, x) == waits(t, x) by {
        assert(waits_at(n, x) == waits_at(s, x)) by {
            if waits_at(n, x) {
                let k = choose|k: int| 0 <= k < tokens(d).len() && tokens(d)[k] == x;
                if k < c.followers.len() {
                    assert(tokens(c)[k] == x);
                } else {
                    assert(tokens(c)[c.followers.len() as int] == x);
                }
            }
            if waits_at(s, x) {
                let k = choose|k: int| 0 <= k < tokens(c).len() && tokens(c)[k] == x;
                if k < c.followers.len() {
                    assert(tokens(d)[k] == x);
                } else {
                    assert(tokens(d)[(c.followers.len() + 1) as int] == x);
                }
            }
        }
        if waits(u, x) {
            let k = choose|k: int| #[trigger] u.has(k) && waits_at(u.slots[k], x);
            assert(t.has(k) && waits_at(t.slots[k], x));
        }
        if waits(t, x) {
            let k = choose|k: int| #[trigger] t.has(k) && waits_at(t.slots[k], x);
            assert(u.has(k) && waits_at(u.slots[k], x));
        }
    }
}

/// An entry changes and goes on waiting for the same.
proof fn lemma_replaced_waiting(cfg: ReactorConfig, t: TableView<SlotView>, i: int, s: SlotView)
    requires
        sound(cfg, t),
        t.has(i),
        s.phase == t.slots[i].phase,
        s.session == t.slots[i].session,
        slot_ok(s),
        same_question(s, t.slots[i]),
        s.deadline == t.slots[i].deadline,
        s.ns_budget == t.slots[i].ns_budget,
    ensures
        sound(cfg, t.replaced(i, s)),
{
    reveal(sound);
    let u = t.replaced(i, s);
    assert forall|k: int| #[trigger] u.has(k) == t.has(k) by {}
    assert(u.consistent());
    assert forall|c: int, p: int| #[trigger] is_child(u, c, p) == is_child(t, c, p) by {}
    assert forall|c: int, p: int| #[trigger] is_child(u, c, p) implies is_awaited(u, c, p) by {
        assert(is_child(t, c, p));
        assert(is_awaited(t, c, p));
    }
    assert forall|p: int| #[trigger] u.has(p) && awaits(u.slots[p]) implies exists|c: int|
        #[trigger] is_child(u, c, p) by {
        assert(t.has(p) && awaits(t.slots[p]));
        let c = choose|c: int| #[trigger] is_child(t, c, p);
        assert(is_child(u, c, p));
    }
    assert forall|c: int, d: int, p: int| #[trigger] is_child(u, c, p) && #[trigger] is_child(
        u,
        d,
        p,
    ) implies c == d by {
        assert(is_child(t, c, p) && is_child(t, d, p));
    }
    if cfg.singleflight {
        assert forall|a: int, b: int| #[trigger] u.has(a) && #[trigger] u.has(b) && same_question(
            u.slots[a],
            u.slots[b],
        ) implies a == b by {
            assert(t.has(a) && t.has(b));
            assert(same_question(t.slots[a], t.slots[b]));
        }
    }
}

/// Taking a new question on keeps the searches sound, and adds the one who asks to
/// those who wait.
pub proof fn law_a_new_question_is_taken_on(
    cfg: ReactorConfig,
    r: Recursor,
    lane: LaneView,
    qname: Seq<Seq<u8>>,
    qtype: u16,
    token: Token,
    now: u64,
)
    requires
        sound(cfg, lane.table),
        cfg.singleflight ==> forall|i: int| !#[trigger] is_question(
            lane,
            i,
            fold_case(qname),
            qtype,
        ),
    ensures
        ({
            let u = lane.table.added(fresh_root(cfg, r, qname, qtype, token, now));
            &&& sound(cfg, u)
            &&& waits(u, token)
            &&& forall|x: Token| #[trigger] waits(lane.table, x) ==> waits(u, x)
        }),
{
    reveal(sound);
    let t = lane.table;
    let s = fresh_root(cfg, r, qname, qtype, token, now);
    if cfg.singleflight {
        assert forall|i: int| #[trigger] t.has(i) implies !same_question(t.slots[i], s) by {
            assert(!is_question(lane, i, fold_case(qname), qtype));
        }
    }
    lemma_root_added(cfg, t, s);
    lemma_added(t, s);
    let u = t.added(s);
    let c = s.kind->Root_0;
    assert(tokens(c)[0] == token);
    assert(u.has(t.next()) && waits_at(u.slots[t.next()], token));
    assert forall|x: Token| #[trigger] waits(t, x) implies waits(u, x) by {
        let i = choose|i: int| #[trigger] t.has(i) && waits_at(t.slots[i], x);
        assert(u.has(i) && waits_at(u.slots[i], x));
    }
}

/// A search that does not wait and goes on with a new state keeps the searches
/// sound, and nobody who waits is forgotten.
pub proof fn law_a_search_goes_on(cfg: ReactorConfig, lane: LaneView, i: int, s: SlotView)
    requires
        sound(cfg, lane.table),
        lane.table.has(i),
        !awaits(lane.table.slots[i]),
        s.phase is Searching,
        s.session matches Some(x) && 0 <= x.at <= x.ladder.len() && 0 <= x.steps <= x.step_cap,
        s.kind == lane.table.slots[i].kind,
        s.deadline == lane.table.slots[i].deadline,
        s.ns_budget == lane.table.slots[i].ns_budget,
    ensures
        sound(cfg, with_slot(lane, i, s).table),
        accounted(lane.table, with_slot(lane, i, s).table, Seq::empty()),
{
    assert(slot_ok(lane.table.slots[i])) by {
        reveal(sound);
    }
    lemma_replaced(cfg, lane.table, i, s);
    lemma_same_tokens(lane.table, i, s);
}

/// Marking a search as over that does not wait keeps the searches sound, and nobody
/// who waits is forgotten.
pub proof fn law_a_search_ends(cfg: ReactorConfig, lane: LaneView, i: int, cause: Cause)
    requires
        sound(cfg, lane.table),
        lane.table.has(i),
        lane.table.slots[i].phase is Searching,
    ensures
        sound(cfg, end_slot(lane, i, cause).lane.table),
        accounted(lane.table, end_slot(lane, i, cause).lane.table, Seq::empty()),
{
    assert(slot_ok(lane.table.slots[i])) by {
        reveal(sound);
    }
    lemma_end_slot(cfg, lane, i, cause);
}

/// A search that waits is never left alone: there is one that it waits for, which
/// works for it and has the same end of time, so that it is told in time.
pub proof fn law_who_waits_is_worked_for(cfg: ReactorConfig, t: TableView<SlotView>, p: int)
    requires
        sound(cfg, t),
        t.has(p),
        awaits(t.slots[p]),
    ensures
        exists|c: int|
            #[trigger] is_child(t, c, p) && t.slots[c].deadline == t.slots[p].deadline,
{
    reveal(sound);
    let c = choose|c: int| #[trigger] is_child(t, c, p);
    assert(is_awaited(t, c, p));
}

/// Searches for addresses cannot nest without end: each may cause fewer than the
/// one it works for.
pub proof fn law_nested_searches_have_less_to_spend(
    cfg: ReactorConfig,
    t: TableView<SlotView>,
    c: int,
    p: int,
)
    requires
        sound(cfg, t),
        is_child(t, c, p),
        t.slots[c].kind is NsAddr,
    ensures
        0 <= t.slots[c].ns_budget < t.slots[p].ns_budget,
{
    reveal(sound);
    assert(is_awaited(t, c, p));
    assert(t.has(c));
}

// ---- what comes of each step ----

/// The end of a question is told to everybody who waits for it, once each, and to nobody
/// else: those who joined, and the one who asked. Its place is free again, the others stay
/// as they are, and the count of its kind rises by as many as were told.
pub proof fn law_everybody_is_told_once(
    lane: LaneView,
    i: int,
    c: RootView,
    m: MessageView,
    e: RecurseError,
    k: int,
    j: int,
)
    ensures
        ({
            let n = c.followers.len();
            let a = answer_root(lane, i, c, m);
            let f = fail_root(lane, i, c, e);
            let t = retry_root(lane, i, c);
            &&& a.out.len() == n + 1 && f.out.len() == n + 1 && t.out.len() == n + 1
            &&& 0 <= k < n ==> a.out[k] == CompletionView::Answer(c.followers[k], m) && f.out[k]
                == CompletionView::Fail(c.followers[k], e) && t.out[k] == CompletionView::Retry(
                c.followers[k],
            )
            &&& a.out[n as int] == CompletionView::Answer(c.leader, m)
            &&& f.out[n as int] == CompletionView::Fail(c.leader, e)
            &&& t.out[n as int] == CompletionView::Retry(c.leader)
            &&& a.due is Nothing && f.due is Nothing && t.due is Nothing
            &&& !a.lane.table.has(i) && !f.lane.table.has(i) && !t.lane.table.has(i)
            &&& j != i ==> a.lane.table.slots.contains_pair(j, lane.table.slots[j])
                == lane.table.has(j) && (lane.table.has(j) ==> f.lane.table.slots[j]
                == lane.table.slots[j] && t.lane.table.slots[j] == lane.table.slots[j])
            &&& (a.lane.completed - lane.completed - (n + 1)) % 0x1_0000_0000_0000_0000 == 0
            &&& (f.lane.failed - lane.failed - (n + 1)) % 0x1_0000_0000_0000_0000 == 0
            &&& (t.lane.retried - lane.retried - (n + 1)) % 0x1_0000_0000_0000_0000 == 0
            &&& a.lane.failed == lane.failed && a.lane.retried == lane.retried
            &&& f.lane.completed == lane.completed && f.lane.retried == lane.retried
            &&& t.lane.completed == lane.completed && t.lane.failed == lane.failed
        }),
{
    let n = c.followers.len();
    lemma_count_rises(lane.completed, (n + 1) as nat);
    lemma_count_rises(lane.failed, (n + 1) as nat);
    lemma_count_rises(lane.retried, (n + 1) as nat);
}

proof fn lemma_count_rises(n: u64, by: nat)
    ensures
        (bumped(n, by) - n - by) % 0x1_0000_0000_0000_0000 == 0,
{
    let m = 0x1_0000_0000_0000_0000int;
    let total = n + by;
    vstd::arithmetic::div_mod::lemma_fundamental_div_mod(total, m);
    vstd::arithmetic::div_mod::lemma_mod_bound(total, m);
    assert(bumped(n, by) - total == m * (-(total / m)));
    vstd::arithmetic::div_mod::lemma_mod_multiples_basic(-(total / m), m);
    assert((-(total / m)) * m == m * (-(total / m))) by (nonlinear_arith);
}

/// A count rises by what is added, and starts over when it is full.
pub proof fn law_counts_rise(n: u64, by: nat)
    ensures
        n + by <= u64::MAX ==> bumped(n, by) == n + by,
{
}

/// What a response to a client's question comes to. An answer goes out at once; an alias
/// is followed while the bounds allow it, after its validation where that is on; an end
/// goes out, or where validation is on, the keys for it are looked after first.
pub proof fn law_what_a_response_to_a_question_comes_to(
    r: Recursor,
    lane: LaneView,
    i: int,
    c: RootView,
    x: SessionView,
    m: MessageView,
    now: u64,
)
    requires
        lane.table.has(i),
        lane.table.slots[i].kind == KindView::Root(c),
        lane.table.slots[i].session == Some(x),
    ensures
        ({
            let t = root_answered(r, lane, i, m, now);
            let s = t.lane.table.slots[i];
            let on = r.trust_anchors@.len() > 0;
            match reading_of(c.asked is None, m, x.qname, x.qtype) {
                Reading::Answer(out) => t == answer_root(lane, i, c, delivered(out)),
                Reading::Follow(hop) => {
                    let over_d = hop.atype == 39 && c.dname_hops >= r.max_dnames;
                    let over_c = hop.atype != 39 && c.cname_hops >= r.max_cnames;
                    &&& over_d ==> t == fail_root(lane, i, c, RecurseError::TooManyDnames)
                    &&& over_c ==> t == fail_root(lane, i, c, RecurseError::TooManyCnames)
                    &&& !over_d && !over_c && on ==> t.out.len() == 0 && t.due == Due::Judge(
                        i as usize,
                    ) && s.phase == PhaseView::JudgingAlias(hop, m) && s.kind == KindView::Root(c)
                        && s.session == Some(x)
                    &&& !over_d && !over_c && !on && now < lane.table.slots[i].deadline ==> {
                        &&& t.out.len() == 0
                        &&& t.due == Due::Start(i as usize)
                        &&& s.phase matches PhaseView::Starting(o) && o.qname == hop.target
                            && o.qtype == c.qtype && o.from is None
                        &&& s.kind matches KindView::Root(d) && d.acc_answers == c.acc_answers
                            + hop.records && d.leader == c.leader && d.followers == c.followers
                    }
                    &&& !over_d && !over_c && !on && now >= lane.table.slots[i].deadline ==> t.out
                        == fail_root(lane, i, c, RecurseError::NoResponse).out
                },
                Reading::End { positive } => {
                    &&& on ==> t.out.len() == 0 && t.due == Due::CheckKeys(i as usize) && (s.phase
                        matches PhaseView::CheckingKeys(h) && h.positive == positive && h.fetches
                        == 0 && h.tried.len() == 0 && h.msg.answers == m.answers
                        && h.msg.authorities == m.authorities && h.msg.header.rcode
                        == m.header.rcode && !h.msg.header.authentic_data) && s.session == Some(x)
                    &&& !on ==> exists|out: MessageView| t == answer_root(lane, i, c, out)
                },
            }
        }),
{
    reveal(root_answered);
    reveal(followed);
    if let Reading::End { positive } = reading_of(c.asked is None, m, x.qname, x.qtype) {
        let h = HeldView { msg: unmarked(m), positive, fetches: 0, tried: Seq::empty() };
        let out = given_out(r, x, c, h, None);
        if r.trust_anchors@.len() == 0 {
            assert(root_answered(r, lane, i, m, now) == answer_root(lane, i, c, out));
        }
    }
    if let Reading::Follow(hop) = reading_of(c.asked is None, m, x.qname, x.qtype) {
        let d = with_alias(c, hop, m.questions, None);
        assert(fail_root(lane, i, d, RecurseError::NoResponse).out =~= fail_root(
            lane,
            i,
            c,
            RecurseError::NoResponse,
        ).out);
    }
}

/// What goes out for a question that is not bogus, or may be seen to be. Without an alias
/// it is the response, cleaned; behind aliases it holds their records first, under the
/// question as the first response repeated it. It keeps the code of the last response and
/// is marked as authentic exactly where everything is secure.
pub proof fn law_what_the_lane_gives_out(
    r: Recursor,
    x: SessionView,
    c: RootView,
    h: HeldView,
    status: Option<SecurityStatus>,
)
    requires
        status matches Some(s) && s is Bogus ==> r.permissive,
        c.asked is None && x.qname.len() > 0 ==> crate::resolve::sentinel_of(x.qname[0]) is None,
    ensures
        ({
            let m = given_out(r, x, c, h, status);
            let leaf = if x.state.chain.len() > 0 {
                Some(x.state.chain.last().zone)
            } else {
                None
            };
            let clean = sanitized(h.msg, x.qname, x.qtype, h.positive, leaf);
            &&& m.header.rcode == h.msg.header.rcode
            &&& m.header.response && m.header.recursion_available && !m.header.authoritative
            &&& m.header.authentic_data <==> status == Some(SecurityStatus::Secure)
            &&& c.asked is None ==> m.answers == clean.answers && m.authorities
                == clean.authorities && m.questions == h.msg.questions
            &&& c.asked matches Some(q) ==> m.answers == c.acc_answers + clean.answers
                && m.questions == q && m.authorities == clean.authorities
        }),
{
    reveal(given_out);
    if c.asked is None {
        crate::resolve::law_what_may_go_out_goes_out(
            r,
            x.qname,
            x.qtype,
            h.msg,
            h.positive,
            status,
            false,
            leaf_of(x.state.chain),
        );
    }
}

/// What an alias adds to a question: its records behind those that are there, one step of
/// its kind, and its status, of which the worst counts. What was asked at first is kept.
pub proof fn law_what_an_alias_adds(
    c: RootView,
    hop: AliasHopView,
    questions: Seq<QuestionView>,
    status: Option<SecurityStatus>,
)
    ensures
        ({
            let d = with_alias(c, hop, questions, status);
            &&& d.leader == c.leader && d.followers == c.followers && d.key == c.key && d.qtype
                == c.qtype
            &&& d.acc_answers == c.acc_answers + hop.records
            &&& c.asked is Some ==> d.asked == c.asked
            &&& c.asked is None ==> d.asked == Some(questions)
            &&& hop.atype == 39 ==> d.dname_hops == c.dname_hops + 1 && d.cname_hops
                == c.cname_hops
            &&& hop.atype != 39 ==> d.cname_hops == c.cname_hops + 1 && d.dname_hops
                == c.dname_hops
            &&& status is None ==> d.acc_status == c.acc_status
            &&& status matches Some(s) ==> (d.acc_status is Secure <==> c.acc_status is Secure
                && s is Secure) && (d.acc_status is Bogus <==> c.acc_status is Bogus || s is Bogus)
        }),
{
}

/// What a verdict does. On an alias it lets the question go on at the alias's target, in
/// time; on a response it lets the answer go out under the worst of all verdicts. Without
/// a verdict everybody is to ask again the blocking way.
pub proof fn law_what_a_verdict_does(
    r: Recursor,
    lane: LaneView,
    i: int,
    c: RootView,
    x: SessionView,
    status: SecurityStatus,
    now: u64,
)
    requires
        lane.table.has(i),
        lane.table.slots[i].kind == KindView::Root(c),
        lane.table.slots[i].session == Some(x),
    ensures
        lane.table.slots[i].phase is Judging || lane.table.slots[i].phase is JudgingAlias
            ==> verdict_given(r, lane, i, None, now) == retry_root(lane, i, c),
        lane.table.slots[i].phase matches PhaseView::Judging(h) ==> verdict_given(
            r,
            lane,
            i,
            Some(status),
            now,
        ) == answer_root(
            lane,
            i,
            c,
            given_out(r, x, c, h, Some(combined(c.acc_status, status))),
        ),
        lane.table.slots[i].phase matches PhaseView::JudgingAlias(hop, m) ==> {
            let t = verdict_given(r, lane, i, Some(status), now);
            let s = t.lane.table.slots[i];
            &&& now < lane.table.slots[i].deadline ==> t.out.len() == 0 && t.due == Due::Start(
                i as usize,
            ) && (s.phase matches PhaseView::Starting(o) && o.qname == hop.target && o.qtype
                == c.qtype && o.from is None && !o.submitted) && s.kind == KindView::Root(
                with_alias(c, hop, m.questions, Some(status)),
            )
            &&& now >= lane.table.slots[i].deadline ==> t.out =~= fail_root(
                lane,
                i,
                c,
                RecurseError::NoResponse,
            ).out
        },
{
    reveal(verdict_given);
    reveal(followed);
    if let PhaseView::JudgingAlias(hop, m) = lane.table.slots[i].phase {
        let d = with_alias(c, hop, m.questions, Some(status));
        assert(fail_root(lane, i, d, RecurseError::NoResponse).out =~= fail_root(
            lane,
            i,
            c,
            RecurseError::NoResponse,
        ).out);
    }
}

/// How keys are looked after: with all at hand the response goes to validation; a missing
/// set is fetched from the zone's own servers, 20 at most, while there is room; else
/// everybody is to ask again the blocking way.
pub proof fn law_how_keys_are_looked_after(
    cfg: ReactorConfig,
    lane: LaneView,
    i: int,
    c: RootView,
    h: HeldView,
    zone: Seq<Seq<u8>>,
    servers: Seq<SocketAddr>,
    now: u64,
)
    requires
        lane.table.consistent(),
        lane.table.has(i),
        lane.table.slots[i].kind == KindView::Root(c),
        lane.table.slots[i].phase == PhaseView::CheckingKeys(h),
    ensures
        ({
            let t = keys_checked(cfg, lane, i, None, now);
            t.out.len() == 0 && t.due == Due::Judge(i as usize) && t.lane.table.slots[i].phase
                == PhaseView::Judging(h)
        }),
        ({
            let t = keys_checked(cfg, lane, i, Some((zone, servers)), now);
            let room = h.fetches < 20 && lane.table.slots.dom().len() <= slot_max(cfg);
            &&& !room ==> t == retry_root(lane, i, c)
            &&& room && now < lane.table.slots[i].deadline ==> {
                let at = lane.table.next();
                let k = t.lane.table.slots[at];
                &&& t.out.len() == 0 && t.due == Due::Start(at as usize)
                &&& k.kind == (KindView::Dnskey { parent: i, zone })
                &&& k.phase matches PhaseView::Starting(o) && o.qname == zone && o.qtype == 48
                    && o.from == Some((zone, servers)) && !o.submitted
                &&& k.deadline == lane.table.slots[i].deadline
                &&& at != i ==> (t.lane.table.slots[i].phase matches PhaseView::FetchingKeys(g)
                    && g.fetches == h.fetches + 1 && g.tried.contains(fold_case(zone)) && g.msg
                    == h.msg && g.positive == h.positive)
            }
        }),
{
    reveal(keys_checked);
    let g = h.tried.push(fold_case(zone));
    assert(g[h.tried.len() as int] == fold_case(zone));
}

/// A search for an address on behalf of another is started exactly where that one may
/// cause a search, there is room, and there is time; else the other one fails. It looks
/// for the address record of the name, shares the time, and may cause one search less.
pub proof fn law_when_an_address_is_looked_for(
    cfg: ReactorConfig,
    lane: LaneView,
    parent: int,
    parked: ParkedView,
    qname: Seq<Seq<u8>>,
    now: u64,
)
    requires
        lane.table.consistent(),
        lane.table.has(parent),
    ensures
        ({
            let p = lane.table.slots[parent];
            let t = spawn_child(cfg, lane, parent, parked, qname, now);
            let may = p.ns_budget >= 1 && lane.table.slots.dom().len() < slot_max(cfg) && now
                < p.deadline;
            let at = lane.table.next();
            &&& t.out.len() == 0
            &&& !may ==> t.due == Due::Finish(parent as usize) && t.lane.table.slots[parent].phase
                == PhaseView::Ended(Cause::Failed(RecurseError::NoReachableNs))
            &&& may ==> {
                let k = t.lane.table.slots[at];
                &&& t.due == Due::Start(at as usize) && at != parent
                &&& k.kind == (KindView::NsAddr { parent })
                &&& k.phase matches PhaseView::Starting(o) && o.qname == qname && o.qtype == 1
                    && o.from is None && !o.submitted
                &&& k.ns_budget == p.ns_budget - 1 && k.deadline == p.deadline
                &&& t.lane.table.slots[parent].phase == PhaseView::Parked(parked)
            }
        }),
{
    reveal(spawn_child);
    let at = lane.table.next();
    if lane.table.free.len() > 0 {
        assert(lane.table.free.contains(lane.table.free[lane.table.free.len() - 1]));
    }
    assert(!lane.table.has(at));
}

/// A referral without an address parks its search with the first name; with no name at all
/// it fails.
pub proof fn law_a_referral_without_address_parks(
    cfg: ReactorConfig,
    lane: LaneView,
    i: int,
    missing: Seq<Seq<Seq<u8>>>,
    pending: PendingReferralView,
    now: u64,
)
    ensures
        missing.len() == 0 ==> parked_for(cfg, lane, i, missing, pending, now) == end_slot(
            lane,
            i,
            Cause::Failed(RecurseError::NoReachableNs),
        ),
        missing.len() > 0 ==> exists|k: ParkedView|
            k.pending == pending && k.missing == missing && k.next_missing == 1 && k.addrs.len()
                == 0 && k.addr_ttl is None && k.children_spawned == 1 && parked_for(
                cfg,
                lane,
                i,
                missing,
                pending,
                now,
            ) == #[trigger] spawn_child(cfg, lane, i, k, missing[0], now),
{
    if missing.len() > 0 {
        let k = ParkedView {
            pending,
            missing,
            next_missing: 1,
            addrs: Seq::empty(),
            addr_ttl: None,
            children_spawned: 1,
        };
        assert(parked_for(cfg, lane, i, missing, pending, now) == spawn_child(
            cfg,
            lane,
            i,
            k,
            missing[0],
            now,
        ));
    }
}

/// Addresses that were found join those of the search that waits for them. The next name
/// has its turn while there is one, eight at most; then the search goes on with what it
/// has.
pub proof fn law_found_addresses_reach_the_one_who_waits(
    cfg: ReactorConfig,
    lane: LaneView,
    i: int,
    parent: int,
    k: ParkedView,
    addrs: Seq<SocketAddr>,
    ttl: Option<u32>,
    now: u64,
)
    requires
        lane.table.has(parent),
        lane.table.slots[parent].phase == PhaseView::Parked(k),
        i != parent,
    ensures
        ({
            let t = addresses_found(cfg, lane, i, parent, addrs, ttl, now);
            let rest = without_slot(lane, i);
            let more = k.next_missing < k.missing.len() && k.children_spawned < 8;
            &&& !rest.table.has(i) && rest.table.slots[parent] == lane.table.slots[parent]
            &&& !more ==> t.due == Due::Resume(parent as usize) && t.out.len() == 0 && (
            t.lane.table.slots[parent].phase matches PhaseView::Resuming(p) && p.addrs == k.addrs
                + addrs && p.pending == k.pending && p.addr_ttl == min_ttl(k.addr_ttl, ttl))
            &&& more ==> exists|p: ParkedView|
                p.addrs == k.addrs + addrs && p.addr_ttl == min_ttl(k.addr_ttl, ttl) && p.pending
                    == k.pending && p.missing == k.missing && p.next_missing == k.next_missing + 1
                    && p.children_spawned == k.children_spawned + 1 && t == #[trigger] spawn_child(
                    cfg,
                    rest,
                    parent,
                    p,
                    k.missing[k.next_missing],
                    now,
                )
        }),
{
    reveal(addresses_found);
    let rest = without_slot(lane, i);
    if k.next_missing < k.missing.len() && k.children_spawned < 8 {
        let p = ParkedView {
            addrs: k.addrs + addrs,
            addr_ttl: min_ttl(k.addr_ttl, ttl),
            next_missing: k.next_missing + 1,
            children_spawned: k.children_spawned + 1,
            ..k
        };
        assert(addresses_found(cfg, lane, i, parent, addrs, ttl, now) == spawn_child(
            cfg,
            rest,
            parent,
            p,
            k.missing[k.next_missing],
            now,
        ));
    }
}

/// Which addresses an answer gives: those of both families of servers that may be asked,
/// at the port, for as long as the first of them holds.
pub proof fn law_which_addresses_an_answer_gives(
    r: Recursor,
    m: MessageView,
    k: int,
    ip: crate::addr::IpAddr,
)
    requires
        0 <= k < m.answers.len(),
        m.answers[k].rdata == match ip {
            crate::addr::IpAddr::V4(a) => crate::message::RDataView::A(a),
            crate::addr::IpAddr::V6(a) => crate::message::RDataView::Aaaa(a),
        },
        r.eligible(ip),
    ensures
        found_addresses(r, m).0.contains(SocketAddr { ip, port: r.port, flowinfo: 0, scope_id: 0 }),
        found_addresses(r, m).1 matches Some(t) && t <= m.answers[k].ttl,
{
    let p = is_address(r);
    let s = m.answers.filter(p);
    crate::seqs::lemma_filter_holds(m.answers, p);
    assert(p(m.answers[k]));
    assert(s.contains(m.answers[k]));
    let j = choose|j: int| 0 <= j < s.len() && s[j] == m.answers[k];
    assert(found_addresses(r, m).0[j].ip == ip);
    assert(found_addresses(r, m).0[j] == (SocketAddr {
        ip,
        port: r.port,
        flowinfo: 0,
        scope_id: 0,
    }));
    crate::response::lemma_least_ttl(s);
    assert(s[j].ttl == m.answers[k].ttl);
}

/// No address of a server that may not be asked is taken out of an answer.
pub proof fn law_only_eligible_addresses_are_taken(r: Recursor, m: MessageView, k: int)
    requires
        0 <= k < found_addresses(r, m).0.len(),
    ensures
        r.eligible(found_addresses(r, m).0[k].ip),
        found_addresses(r, m).0[k].port == r.port,
{
    let p = is_address(r);
    let s = m.answers.filter(p);
    crate::seqs::lemma_filter_holds(m.answers, p);
    assert(p(s[k]));
}

/// A search for keys that is over, whatever came of it, has its parent look again, and is
/// gone.
pub proof fn law_keys_reach_the_one_who_waits(lane: LaneView, i: int, parent: int, h: HeldView)
    requires
        lane.table.has(parent),
        lane.table.slots[parent].phase == PhaseView::FetchingKeys(h),
        i != parent,
    ensures
        ({
            let t = keys_fetched(lane, i, parent);
            &&& t.out.len() == 0 && t.due == Due::CheckKeys(parent as usize)
            &&& t.lane.table.slots[parent].phase == PhaseView::CheckingKeys(h)
            &&& !t.lane.table.has(i)
        }),
{
    reveal(keys_fetched);
}

/// What follows once a search is over without a response: a question fails with its error,
/// or is to be asked again the blocking way; a search for keys or an address hands over
/// what it has, which is nothing, except that what needs the blocking way makes the one
/// who waits need it too.
pub proof fn law_what_follows_the_end_of_a_search(
    cfg: ReactorConfig,
    lane: LaneView,
    i: int,
    cause: Cause,
    now: u64,
)
    requires
        lane.table.has(i),
        lane.table.slots[i].phase == PhaseView::Ended(cause),
    ensures
        match lane.table.slots[i].kind {
            KindView::Root(c) => {
                &&& cause matches Cause::Failed(e) ==> finished(cfg, lane, i, now) == fail_root(
                    lane,
                    i,
                    c,
                    e,
                )
                &&& cause is NeedsSync ==> finished(cfg, lane, i, now) == retry_root(lane, i, c)
            },
            KindView::Dnskey { parent, .. } => finished(cfg, lane, i, now) == keys_fetched(
                lane,
                i,
                parent,
            ),
            KindView::NsAddr { parent } => {
                &&& cause is NeedsSync && parent != i ==> finished(cfg, lane, i, now).due
                    == Due::Finish(parent as usize) && finished(
                    cfg,
                    lane,
                    i,
                    now,
                ).lane.table.slots[parent].phase == PhaseView::Ended(Cause::NeedsSync)
                &&& cause is Failed ==> finished(cfg, lane, i, now) == addresses_found(
                    cfg,
                    lane,
                    i,
                    parent,
                    Seq::empty(),
                    None,
                    now,
                )
            },
        },
{
}

/// Where the end of a search leads: a failure and the need of the blocking way end it, a
/// need of addresses parks it, and a response goes to what it was for.
pub proof fn law_where_the_end_of_a_search_leads(
    r: Recursor,
    cfg: ReactorConfig,
    lane: LaneView,
    i: int,
    e: RecurseError,
    m: MessageView,
    now: u64,
)
    requires
        lane.table.has(i),
    ensures
        ({
            let f = settled(r, cfg, lane, i, SessionEndView::Failed(e), now);
            let n = settled(r, cfg, lane, i, SessionEndView::NeedsSync, now);
            let d = settled(r, cfg, lane, i, SessionEndView::Done(m), now);
            &&& f.due == Due::Finish(i as usize) && f.out.len() == 0
            &&& f.lane.table.slots[i].phase == PhaseView::Ended(Cause::Failed(e))
            &&& n.due == Due::Finish(i as usize) && n.out.len() == 0
            &&& n.lane.table.slots[i].phase == PhaseView::Ended(Cause::NeedsSync)
            &&& match lane.table.slots[i].kind {
                KindView::Root(_) => d == root_answered(r, lane, i, m, now),
                KindView::Dnskey { parent, .. } => d == keys_fetched(lane, i, parent),
                KindView::NsAddr { parent } => d == addresses_found(
                    cfg,
                    lane,
                    i,
                    parent,
                    found_addresses(r, m).0,
                    found_addresses(r, m).1,
                    now,
                ),
            }
        }),
{
}

/// A search that could not be started: a question handed in just now is told by the one
/// who handed it in, all others who wait are told here; an earlier one is told to
/// everybody. A search on behalf of another makes that one go on without, or fail.
pub proof fn law_what_a_failed_start_comes_to(
    cfg: ReactorConfig,
    lane: LaneView,
    i: int,
    o: OrderView,
    now: u64,
    k: int,
)
    requires
        lane.table.has(i),
        lane.table.slots[i].phase == PhaseView::Starting(o),
    ensures
        match lane.table.slots[i].kind {
            KindView::Root(c) => {
                let t = not_started(cfg, lane, i, now);
                &&& !o.submitted ==> t == fail_root(lane, i, c, RecurseError::NoReachableNs)
                &&& o.submitted ==> t.due is Nothing && !t.lane.table.has(i) && t.out.len()
                    == c.followers.len() && (0 <= k < c.followers.len() ==> t.out[k]
                    == CompletionView::Fail(c.followers[k], RecurseError::NoReachableNs))
            },
            KindView::Dnskey { parent, .. } => not_started(cfg, lane, i, now) == keys_fetched(
                lane,
                i,
                parent,
            ),
            KindView::NsAddr { parent } => parent != i ==> not_started(cfg, lane, i, now).due
                == Due::Finish(parent as usize) && not_started(
                cfg,
                lane,
                i,
                now,
            ).lane.table.slots[parent].phase == PhaseView::Ended(
                Cause::Failed(RecurseError::NoReachableNs),
            ),
        },
{
    reveal(not_started);
}

/// A new question starts with nothing found, is known by its name in small letters, has
/// the whole time of a question, and may cause as many searches as the resolver allows.
pub proof fn law_how_a_question_enters_the_lane(
    cfg: ReactorConfig,
    r: Recursor,
    qname: Seq<Seq<u8>>,
    qtype: u16,
    token: Token,
    now: u64,
)
    ensures
        ({
            let s = fresh_root(cfg, r, qname, qtype, token, now);
            &&& s.session is None && s.ns_budget == r.max_ns_resolves
            &&& now + cfg.session_budget <= u64::MAX ==> s.deadline == now + cfg.session_budget
            &&& s.phase matches PhaseView::Starting(o) && o.qname == qname && o.qtype == qtype
                && o.from is None && o.submitted
            &&& s.kind matches KindView::Root(c) && c.leader == token && c.followers.len() == 0
                && c.key == fold_case(qname) && c.qtype == qtype && c.asked is None
                && c.acc_answers.len() == 0 && c.cname_hops == 0 && c.dname_hops == 0
                && c.acc_status is Secure
        }),
        slot_max(cfg) >= cfg.inflight_max,
        2 * cfg.inflight_max <= usize::MAX ==> slot_max(cfg) == 2 * cfg.inflight_max,
{
}

/// One who joins a question waits for it with the others, and nothing else changes.
pub proof fn law_joining_waits_with_the_others(lane: LaneView, i: int, token: Token, c: RootView)
    requires
        lane.table.has(i),
        lane.table.slots[i].kind == KindView::Root(c),
    ensures
        ({
            let l = joined(lane, i, token);
            let s = l.table.slots[i];
            &&& s.phase == lane.table.slots[i].phase && s.session == lane.table.slots[i].session
            &&& s.deadline == lane.table.slots[i].deadline
            &&& s.kind matches KindView::Root(d) && d.followers == c.followers.push(token)
                && d.leader == c.leader && d.key == c.key && d.qtype == c.qtype && d.acc_answers
                == c.acc_answers
            &&& l.completed == lane.completed && l.failed == lane.failed && l.retried
                == lane.retried
            &&& lane.merged < u64::MAX ==> l.merged == lane.merged + 1
        }),
{
}

} // verus!
