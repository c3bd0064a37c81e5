//! Many searches on one thread.

use vstd::prelude::*;

use crate::addr::SocketAddr;
use crate::cache::{after_fetch, deepest_from};
use crate::chain::{combined, copy_servers, SecurityStatus};
use crate::iterate::{addr_of, address_in, sockets, PendingReferral, PendingReferralView};
use crate::lane::{
    blamed, end_view, ladder_of, opened, responds, resumes, takes_reply, AwaitedView, Session,
    SessionEnd, SessionEndView, SessionView,
};
use crate::message::{
    Message, MessageView, Question, Record, RecordView, TYPE_A, TYPE_DNAME, TYPE_DNSKEY,
};
use crate::name::{fold_case, last_labels, Name};
use crate::query::{counted, ValidationCounter};
use crate::recursor::{keys_in, keys_ttl, RecurseError, Recursor};
use crate::resolve::{
    deliver, finish_inner, held_back, merge_tail, read_response, ReadResponse,
};
use crate::response::{least_ttl_of, min_optional_ttl, min_ttl, AliasHop};
use crate::seqs::{lemma_filter_holds, lemma_views_push, pick, views, Replicate};
use crate::slots::{
    addresses_found, bumped, end_slot, finished, followed, found_addresses, fresh_root, given_out,
    hops_so_far, is_address, is_child, is_question, joined, keys_checked, keys_fetched,
    law_a_failed_start_forgets_nobody, law_a_new_question_is_taken_on, law_a_search_ends,
    law_a_search_goes_on, law_a_verdict_forgets_nobody, law_checking_keys_forgets_nobody,
    law_finishing_forgets_nobody, law_joining_adds_one_who_waits, law_settling_forgets_nobody,
    not_started, parked_for, population, quiet, root_answered, settled, slot_max, sound,
    spawn_child, tokens, verdict_given, with_slot, without_slot, Cause, Completion, CompletionView,
    Due, Held, KindView, LaneView, Moved, Parked, Phase, PhaseView, ReactorConfig, RootCtx,
    RootView, SearchOrder, Slot, SlotKind, SlotView, Token, MAX_CHILDREN, MAX_KEY_FETCHES,
};
use crate::table::{lemma_put_back, SlotTable, TableView};
use crate::validate::missing_from;

verus! {

/// What became of a question that was handed in.
#[derive(Clone, Copy, PartialEq, Eq, Structural, Debug)]
pub enum SubmitOutcome {
    /// A search for it is under way.
    Accepted,
    /// It joined one that is.
    Merged,
    /// There is no room, or it must not be answered here.
    Rejected,
    /// Its search could not start.
    Failed,
}

/// The first step of a question that was handed in.
#[derive(Clone, Copy, PartialEq, Eq, Structural, Debug)]
pub enum Submission {
    Over(SubmitOutcome),
    /// The search in that place has to be started.
    Start(usize),
}

/// Searches that share a thread.
pub struct Reactor {
    pub cfg: ReactorConfig,
    pub slots: SlotTable<Slot>,
    pub merged: u64,
    pub completed: u64,
    pub failed: u64,
    pub retried: u64,
}

proof fn lemma_bumped(n: u64, k: nat)
    ensures
        bumped(bumped(n, k), 1) == bumped(n, k + 1),
        bumped(n, 0) == n,
{
    let m = 0x1_0000_0000_0000_0000int;
    assert(((n + k) % m + 1) % m == (n + k + 1) % m) by {
        vstd::arithmetic::div_mod::lemma_add_mod_noop(n + k, 1, m);
    }
}

fn bump(n: u64) -> (r: u64)
    ensures
        r == bumped(n, 1),
{
    n.wrapping_add(1)
}

/// What validation has to look at before a search goes on: the name and the type,
/// and whether records answer (`true`) or are denied.
pub open spec fn question_to_judge(s: SlotView) -> Option<(Seq<Seq<u8>>, u16, bool)> {
    match s.phase {
        PhaseView::JudgingAlias(a, _) => Some((a.owner, a.atype, true)),
        PhaseView::Judging(h) => Some((s.session->0.qname, s.session->0.qtype, h.positive)),
        _ => None,
    }
}

impl Reactor {
    /// All searches and the counts.
    pub open spec fn lane(&self) -> LaneView {
        LaneView {
            table: self.slots@,
            merged: self.merged,
            completed: self.completed,
            failed: self.failed,
            retried: self.retried,
        }
    }

    /// The searches fit together.
    pub open spec fn is_sound(&self) -> bool {
        sound(self.cfg, self.slots@)
    }

    pub fn new(cfg: ReactorConfig) -> (r: Self)
        ensures
            r.cfg == cfg,
            r.slots@ == (TableView {
                slots: Map::<int, SlotView>::empty(),
                free: Seq::empty(),
                high: 0,
            }),
            r.merged == 0 && r.completed == 0 && r.failed == 0 && r.retried == 0,
            r.is_sound(),
    {
        let r = Reactor { cfg, slots: SlotTable::new(), merged: 0, completed: 0, failed: 0, retried: 0 };
        proof {
            reveal(sound);
        }
        assert(r.slots@.consistent()) by {
            assert forall|i: int| #[trigger] r.slots@.has(i) <==> 0 <= i < r.slots@.high
                && !r.slots@.free.contains(i) by {}
        }
        r
    }

    /// How many searches there are.
    pub fn live(&self) -> (r: usize)
        ensures
            r == population(self.lane()),
    {
        self.slots.live()
    }

    /// Whether one more question can be taken on.
    pub fn has_capacity(&self) -> (r: bool)
        ensures
            r == (population(self.lane()) < self.cfg.inflight_max),
    {
        self.live() < self.cfg.inflight_max
    }

    fn slot_limit(&self) -> (r: usize)
        ensures
            r == slot_max(self.cfg),
    {
        if self.cfg.inflight_max <= usize::MAX / 2 {
            self.cfg.inflight_max * 2
        } else {
            usize::MAX
        }
    }

    // ---- telling those who wait ----

    /// Gives everybody the answer. The question has left its place.
    fn answer_all(&mut self, root: RootCtx, msg: Message, out: &mut Vec<Completion>)
        ensures
            ({
                let t = tokens(root@);
                &&& views(final(out)@) == views(old(out)@) + Seq::new(
                    t.len(),
                    |k: int| CompletionView::Answer(t[k], msg@),
                )
                &&& final(self).lane() == (LaneView {
                    completed: bumped(old(self).completed, t.len()),
                    ..old(self).lane()
                })
                &&& final(self).cfg == old(self).cfg
            }),
    {
        let ghost t = tokens(root@);
        let ghost start = views(out@);
        let ghost all = Seq::new(t.len(), |k: int| CompletionView::Answer(t[k], msg@));
        let mut i: usize = 0;
        proof {
            lemma_bumped(self.completed, 0);
            assert(start + all.take(0) =~= start);
        }
        while i < root.followers.len()
            invariant
                i <= root.followers@.len(),
                t == tokens(root@),
                all == Seq::new(t.len(), |k: int| CompletionView::Answer(t[k], msg@)),
                views(out@) == start + all.take(i as int),
                self.lane() == (LaneView {
                    completed: bumped(old(self).completed, i as nat),
                    ..old(self).lane()
                }),
                self.cfg == old(self).cfg,
            decreases root.followers.len() - i,
        {
            let c = Completion::Answer(root.followers[i], msg.replicate());
            proof {
                lemma_views_push(out@, c);
                lemma_bumped(old(self).completed, i as nat);
                assert(start + all.take(i + 1) =~= (start + all.take(i as int)).push(c@));
            }
            out.push(c);
            self.completed = bump(self.completed);
            i = i + 1;
        }
        let last = Completion::Answer(root.leader, msg);
        proof {
            lemma_views_push(out@, last);
            lemma_bumped(old(self).completed, i as nat);
            assert(start + all =~= (start + all.take(i as int)).push(last@));
        }
        out.push(last);
        self.completed = bump(self.completed);
    }

    /// Tells those who joined that it failed, and the one who asked where `leader`
    /// says so. The question has left its place.
    fn fail_all(&mut self, root: RootCtx, error: RecurseError, leader: bool, out: &mut Vec<Completion>)
        ensures
            ({
                let t = if leader {
                    tokens(root@)
                } else {
                    root@.followers
                };
                &&& views(final(out)@) == views(old(out)@) + Seq::new(
                    t.len(),
                    |k: int| CompletionView::Fail(t[k], error),
                )
                &&& final(self).lane() == (LaneView {
                    failed: bumped(old(self).failed, t.len()),
                    ..old(self).lane()
                })
                &&& final(self).cfg == old(self).cfg
            }),
    {
        let ghost t = tokens(root@);
        let ghost start = views(out@);
        let ghost all = Seq::new(t.len(), |k: int| CompletionView::Fail(t[k], error));
        let mut i: usize = 0;
        proof {
            lemma_bumped(self.failed, 0);
            assert(start + all.take(0) =~= start);
        }
        while i < root.followers.len()
            invariant
                i <= root.followers@.len(),
                t == tokens(root@),
                all == Seq::new(t.len(), |k: int| CompletionView::Fail(t[k], error)),
                views(out@) == start + all.take(i as int),
                self.lane() == (LaneView {
                    failed: bumped(old(self).failed, i as nat),
                    ..old(self).lane()
                }),
                self.cfg == old(self).cfg,
            decreases root.followers.len() - i,
        {
            let c = Completion::Fail(root.followers[i], error);
            proof {
                lemma_views_push(out@, c);
                lemma_bumped(old(self).failed, i as nat);
                assert(start + all.take(i + 1) =~= (start + all.take(i as int)).push(c@));
            }
            out.push(c);
            self.failed = bump(self.failed);
            i = i + 1;
        }
        if leader {
            let last = Completion::Fail(root.leader, error);
            proof {
                lemma_views_push(out@, last);
                lemma_bumped(old(self).failed, i as nat);
                assert(start + all =~= (start + all.take(i as int)).push(last@));
            }
            out.push(last);
            self.failed = bump(self.failed);
        } else {
            proof {
                let f = root@.followers;
                assert(all.take(i as int) =~= Seq::new(
                    f.len(),
                    |k: int| CompletionView::Fail(f[k], error),
                ));
            }
        }
    }

    /// Sends everybody the blocking way. The question has left its place.
    fn retry_all(&mut self, root: RootCtx, out: &mut Vec<Completion>)
        ensures
            ({
                let t = tokens(root@);
                &&& views(final(out)@) == views(old(out)@) + Seq::new(
                    t.len(),
                    |k: int| CompletionView::Retry(t[k]),
                )
                &&& final(self).lane() == (LaneView {
                    retried: bumped(old(self).retried, t.len()),
                    ..old(self).lane()
                })
                &&& final(self).cfg == old(self).cfg
            }),
    {
        let ghost t = tokens(root@);
        let ghost start = views(out@);
        let ghost all = Seq::new(t.len(), |k: int| CompletionView::Retry(t[k]));
        let mut i: usize = 0;
        proof {
            lemma_bumped(self.retried, 0);
            assert(start + all.take(0) =~= start);
        }
        while i < root.followers.len()
            invariant
                i <= root.followers@.len(),
                t == tokens(root@),
                all == Seq::new(t.len(), |k: int| CompletionView::Retry(t[k])),
                views(out@) == start + all.take(i as int),
                self.lane() == (LaneView {
                    retried: bumped(old(self).retried, i as nat),
                    ..old(self).lane()
                }),
                self.cfg == old(self).cfg,
            decreases root.followers.len() - i,
        {
            let c = Completion::Retry(root.followers[i]);
            proof {
                lemma_views_push(out@, c);
                lemma_bumped(old(self).retried, i as nat);
                assert(start + all.take(i + 1) =~= (start + all.take(i as int)).push(c@));
            }
            out.push(c);
            self.retried = bump(self.retried);
            i = i + 1;
        }
        let last = Completion::Retry(root.leader);
        proof {
            lemma_views_push(out@, last);
            lemma_bumped(old(self).retried, i as nat);
            assert(start + all =~= (start + all.take(i as int)).push(last@));
        }
        out.push(last);
        self.retried = bump(self.retried);
    }

    // ---- places ----

    /// Puts an entry back where one was taken out.
    fn put_back(&mut self, i: usize, slot: Slot, Ghost(before): Ghost<LaneView>)
        requires
            old(self).lane() == without_slot(before, i as int),
            old(self).slots@.high < usize::MAX,
        ensures
            final(self).lane() == with_slot(before, i as int, slot@),
            final(self).cfg == old(self).cfg,
    {
        proof {
            lemma_put_back(before.table, i as int, slot@);
        }
        let _ = self.slots.insert(slot);
    }

    /// Marks a search as over.
    fn end_search(&mut self, i: usize, cause: Cause) -> (r: Due)
        requires
            old(self).slots@.has(i as int),
            old(self).slots@.high < usize::MAX,
        ensures
            final(self).lane() == end_slot(old(self).lane(), i as int, cause).lane,
            r == end_slot(old(self).lane(), i as int, cause).due,
            final(self).cfg == old(self).cfg,
    {
        let ghost before = self.lane();
        match self.slots.take(i) {
            None => {},
            Some(slot) => {
                let slot = Slot { phase: Phase::Ended(cause), ..slot };
                self.put_back(i, slot, Ghost(before));
            },
        }
        Due::Finish(i)
    }

    /// Has an address looked for on behalf of a search that was taken out.
    fn spawn(
        &mut self,
        parent: usize,
        slot: Slot,
        parked: Parked,
        qname: Name,
        room: bool,
        now: u64,
        Ghost(before): Ghost<LaneView>,
    ) -> (r: Due)
        requires
            old(self).lane() == without_slot(before, parent as int),
            old(self).slots@.high < usize::MAX,
            slot@ == (SlotView { phase: slot@.phase, ..before.table.slots[parent as int] }),
            room == (population(before) < slot_max(old(self).cfg)),
        ensures
            ({
                let m = spawn_child(old(self).cfg, before, parent as int, parked@, qname@, now);
                &&& final(self).lane() == m.lane
                &&& r == m.due
                &&& m.out == Seq::<CompletionView>::empty()
            }),
            final(self).cfg == old(self).cfg,
    {
        proof {
            reveal(spawn_child);
        }
        if slot.ns_budget >= 1 && room && now < slot.deadline {
            let ns_budget: usize = slot.ns_budget - 1;
            let deadline: u64 = slot.deadline;
            let slot = Slot { phase: Phase::Parked(parked), ..slot };
            self.put_back(parent, slot, Ghost(before));
            let child = Slot {
                kind: SlotKind::NsAddr { parent },
                session: None,
                phase: Phase::Starting(
                    SearchOrder { qname, qtype: TYPE_A, from: None, submitted: false },
                ),
                ns_budget,
                deadline,
            };
            let i: usize = self.slots.insert(child);
            Due::Start(i)
        } else {
            let slot = Slot {
                phase: Phase::Ended(Cause::Failed(RecurseError::NoReachableNs)),
                ..slot
            };
            self.put_back(parent, slot, Ghost(before));
            Due::Finish(parent)
        }
    }

    /// A search for an address left its place with what it found. Its parent goes
    /// on.
    fn resume_parent(
        &mut self,
        i: usize,
        parent: usize,
        addrs: Vec<SocketAddr>,
        ttl: Option<u32>,
        now: u64,
    ) -> (r: Due)
        requires
            old(self).slots@.has(i as int),
            old(self).slots@.has(parent as int),
            parent != i,
            old(self).slots@.slots[parent as int].phase is Parked,
            old(self).slots@.high < usize::MAX,
        ensures
            ({
                let m = addresses_found(
                    old(self).cfg,
                    old(self).lane(),
                    i as int,
                    parent as int,
                    addrs@,
                    ttl,
                    now,
                );
                &&& final(self).lane() == m.lane
                &&& r == m.due
                &&& m.out == Seq::<CompletionView>::empty()
            }),
            final(self).cfg == old(self).cfg,
    {
        proof {
            reveal(addresses_found);
        }
        let _ = self.slots.take(i);
        let room: bool = self.live() < self.slot_limit();
        let ghost rest = self.lane();
        match self.slots.take(parent) {
            None => Due::Nothing,
            Some(slot) => {
                let Slot { kind, session, phase, ns_budget, deadline } = slot;
                match phase {
                    Phase::Parked(mut k) => {
                        let mut addrs = addrs;
                        k.addrs.append(&mut addrs);
                        k.addr_ttl = min_optional_ttl(k.addr_ttl, ttl);
                        let slot = Slot {
                            kind,
                            session,
                            phase: Phase::Searching,
                            ns_budget,
                            deadline,
                        };
                        if k.next_missing < k.missing.len() && k.children_spawned < MAX_CHILDREN {
                            let next = k.missing[k.next_missing].clone();
                            assert(next@ == views(k.missing@)[k.next_missing as int]);
                            k.next_missing = k.next_missing + 1;
                            k.children_spawned = k.children_spawned + 1;
                            self.spawn(parent, slot, k, next, room, now, Ghost(rest))
                        } else {
                            let slot = Slot { phase: Phase::Resuming(k), ..slot };
                            self.put_back(parent, slot, Ghost(rest));
                            Due::Resume(parent)
                        }
                    },
                    _ => Due::Nothing,
                }
            },
        }
    }

    /// A search for keys left its place. Its parent looks again which are missing.
    fn resume_key_parent(&mut self, i: usize, parent: usize) -> (r: Due)
        requires
            old(self).slots@.has(i as int),
            old(self).slots@.has(parent as int),
            parent != i,
            old(self).slots@.slots[parent as int].phase is FetchingKeys,
            old(self).slots@.high < usize::MAX,
        ensures
            ({
                let m = keys_fetched(old(self).lane(), i as int, parent as int);
                &&& final(self).lane() == m.lane
                &&& r == m.due
                &&& m.out == Seq::<CompletionView>::empty()
            }),
            final(self).cfg == old(self).cfg,
    {
        proof {
            reveal(keys_fetched);
        }
        let _ = self.slots.take(i);
        let ghost rest = self.lane();
        match self.slots.take(parent) {
            None => Due::Nothing,
            Some(slot) => {
                let Slot { kind, session, phase, ns_budget, deadline } = slot;
                match phase {
                    Phase::FetchingKeys(h) => {
                        let slot = Slot {
                            kind,
                            session,
                            phase: Phase::CheckingKeys(h),
                            ns_budget,
                            deadline,
                        };
                        self.put_back(parent, slot, Ghost(rest));
                        Due::CheckKeys(parent)
                    },
                    _ => Due::Nothing,
                }
            },
        }
    }

    /// Follows an alias, for a question that was taken out.
    fn restart_root(
        &mut self,
        i: usize,
        root: RootCtx,
        hop: AliasHop,
        questions: Vec<Question>,
        status: Option<SecurityStatus>,
        ns_budget: usize,
        deadline: u64,
        now: u64,
        out: &mut Vec<Completion>,
        Ghost(before): Ghost<LaneView>,
    ) -> (r: Due)
        requires
            old(self).lane() == without_slot(before, i as int),
            old(self).slots@.high < usize::MAX,
            before.table.slots[i as int].ns_budget == ns_budget,
            before.table.slots[i as int].deadline == deadline,
            hops_so_far(root@, hop@) < usize::MAX,
        ensures
            ({
                let m = followed(before, i as int, root@, hop@, views(questions@), status, now);
                &&& final(self).lane() == m.lane
                &&& views(final(out)@) == views(old(out)@) + m.out
                &&& r == m.due
            }),
            final(self).cfg == old(self).cfg,
    {
        proof {
            reveal(followed);
        }
        let mut root = root;
        let AliasHop { target, owner: _, atype, records } = hop;
        let ghost acc = root.acc_answers@;
        let ghost more = records@;
        let mut records = records;
        root.acc_answers.append(&mut records);
        assert(views(root.acc_answers@) =~= views(acc) + views(more));
        if root.asked.is_none() {
            root.asked = Some(questions);
        }
        if let Some(x) = status {
            root.acc_status = root.acc_status.combine(x);
        }
        if atype == TYPE_DNAME {
            root.dname_hops = root.dname_hops + 1;
        } else {
            root.cname_hops = root.cname_hops + 1;
        }
        if now >= deadline {
            self.fail_all(root, RecurseError::NoResponse, true, out);
            return Due::Nothing;
        }
        let qtype: u16 = root.qtype;
        let slot = Slot {
            kind: SlotKind::Root(root),
            session: None,
            phase: Phase::Starting(
                SearchOrder { qname: target, qtype, from: None, submitted: false },
            ),
            ns_budget,
            deadline,
        };
        self.put_back(i, slot, Ghost(before));
        assert(views(out@) + Seq::<CompletionView>::empty() =~= views(out@));
        Due::Start(i)
    }

    /// A question of a client has a response.
    #[verifier::spinoff_prover]
    fn root_answer(
        &mut self,
        r: &Recursor,
        i: usize,
        m: Message,
        now: u64,
        out: &mut Vec<Completion>,
    ) -> (due: Due)
        requires
            old(self).is_sound(),
            old(self).slots@.has(i as int),
            old(self).slots@.slots[i as int].phase is Searching,
            old(self).slots@.slots[i as int].kind is Root,
            old(self).slots@.high < usize::MAX,
        ensures
            ({
                let v = root_answered(*r, old(self).lane(), i as int, m@, now);
                &&& final(self).lane() == v.lane
                &&& views(final(out)@) == views(old(out)@) + v.out
                &&& due == v.due
            }),
            final(self).cfg == old(self).cfg,
    {
        proof {
            reveal(root_answered);
            reveal(sound);
        }
        let ghost before = self.lane();
        assert(views(out@) + Seq::<CompletionView>::empty() =~= views(out@));
        let Slot { kind, session, phase: _, ns_budget, deadline } = match self.slots.take(i) {
            Some(slot) => slot,
            None => {
                return Due::Nothing;
            },
        };
        let (root, x) = match (kind, session) {
            (SlotKind::Root(root), Some(x)) => (root, x),
            _ => {
                return Due::Nothing;
            },
        };
        match read_response(root.asked.is_none(), m, &x.qname, x.qtype) {
            ReadResponse::Answer(answer) => {
                self.answer_all(root, deliver(answer), out);
                Due::Nothing
            },
            ReadResponse::Follow { hop, response } => {
                let by_dname: bool = hop.atype == TYPE_DNAME;
                if by_dname && root.dname_hops >= r.max_dnames {
                    self.fail_all(root, RecurseError::TooManyDnames, true, out);
                    return Due::Nothing;
                }
                if !by_dname && root.cname_hops >= r.max_cnames {
                    self.fail_all(root, RecurseError::TooManyCnames, true, out);
                    return Due::Nothing;
                }
                if r.is_validating() {
                    let slot = Slot {
                        kind: SlotKind::Root(root),
                        session: Some(x),
                        phase: Phase::JudgingAlias(hop, response),
                        ns_budget,
                        deadline,
                    };
                    self.put_back(i, slot, Ghost(before));
                    return Due::Judge(i);
                }
                self.restart_root(
                    i,
                    root,
                    hop,
                    response.questions,
                    None,
                    ns_budget,
                    deadline,
                    now,
                    out,
                    Ghost(before),
                )
            },
            ReadResponse::End { response, positive } => {
                let mut msg = response;
                msg.header.authentic_data = false;
                msg.header.authoritative = false;
                let held = Held { msg, positive, fetches: 0, tried: Vec::new() };
                assert(views(held.tried@) =~= Seq::<Seq<Seq<u8>>>::empty());
                if r.is_validating() {
                    let slot = Slot {
                        kind: SlotKind::Root(root),
                        session: Some(x),
                        phase: Phase::CheckingKeys(held),
                        ns_budget,
                        deadline,
                    };
                    self.put_back(i, slot, Ghost(before));
                    return Due::CheckKeys(i);
                }
                self.deliver(r, root, x, held, None, &mut ValidationCounter::default(), out);
                Due::Nothing
            },
        }
    }

    /// Gives the answer out. The question has left its place.
    fn deliver(
        &mut self,
        r: &Recursor,
        root: RootCtx,
        session: Session,
        held: Held,
        status: Option<SecurityStatus>,
        counter: &mut ValidationCounter,
        out: &mut Vec<Completion>,
    )
        ensures
            ({
                let t = tokens(root@);
                let m = given_out(*r, session@, root@, held@, status);
                &&& views(final(out)@) == views(old(out)@) + Seq::new(
                    t.len(),
                    |k: int| CompletionView::Answer(t[k], m),
                )
                &&& final(self).lane() == (LaneView {
                    completed: bumped(old(self).completed, t.len()),
                    ..old(self).lane()
                })
                &&& final(self).cfg == old(self).cfg
                &&& final(counter).bogus_total == if held_back(*r, status, false) {
                    counted(old(counter).bogus_total)
                } else {
                    old(counter).bogus_total
                }
            }),
    {
        let ghost c = root@;
        let mut root = root;
        let mut acc: Vec<Record> = Vec::new();
        acc.append(&mut root.acc_answers);
        let asked = root.asked.take();
        let m = message_out(r, &session, acc, asked, held, status, counter, Ghost(c));
        assert(tokens(root@) =~= tokens(c));
        self.answer_all(root, m, out);
    }

    /// Where the end of a search leads. Keys that it found are remembered.
    pub fn settle(
        &mut self,
        r: &mut Recursor,
        i: usize,
        end: SessionEnd,
        now: u64,
        now_secs: u32,
        now_millis: u64,
        out: &mut Vec<Completion>,
    ) -> (due: Due)
        requires
            old(self).is_sound(),
            old(self).slots@.has(i as int),
            old(self).slots@.slots[i as int].phase is Searching,
            old(self).slots@.high < usize::MAX,
        ensures
            ({
                let v = settled(*old(r), old(self).cfg, old(self).lane(), i as int, end@, now);
                &&& final(self).lane() == v.lane
                &&& views(final(out)@) == views(old(out)@) + v.out
                &&& due == v.due
            }),
            final(self).cfg == old(self).cfg,
            final(self).is_sound(),
            final(r).dnskey_cache@ == remembered_keys(
                *old(r),
                old(self).slots@.slots[i as int].kind,
                end@,
                now_secs,
                now_millis,
            ),
            *final(r) == (Recursor { dnskey_cache: final(r).dnskey_cache, ..*old(r) }),
            final(r).same_room(*old(r)),
    {
        proof {
            law_settling_forgets_nobody(*r, self.cfg, self.lane(), i as int, end@, now);
        }
        self.settle_end(r, i, end, now, now_secs, now_millis, out)
    }

    #[verifier::spinoff_prover]
    fn settle_end(
        &mut self,
        r: &mut Recursor,
        i: usize,
        end: SessionEnd,
        now: u64,
        now_secs: u32,
        now_millis: u64,
        out: &mut Vec<Completion>,
    ) -> (due: Due)
        requires
            old(self).is_sound(),
            old(self).slots@.has(i as int),
            old(self).slots@.slots[i as int].phase is Searching,
            old(self).slots@.high < usize::MAX,
        ensures
            ({
                let v = settled(*old(r), old(self).cfg, old(self).lane(), i as int, end@, now);
                &&& final(self).lane() == v.lane
                &&& views(final(out)@) == views(old(out)@) + v.out
                &&& due == v.due
            }),
            final(self).cfg == old(self).cfg,
            final(r).dnskey_cache@ == remembered_keys(
                *old(r),
                old(self).slots@.slots[i as int].kind,
                end@,
                now_secs,
                now_millis,
            ),
            *final(r) == (Recursor { dnskey_cache: final(r).dnskey_cache, ..*old(r) }),
            final(r).same_room(*old(r)),
    {
        proof {
            assert(views(out@) + Seq::<CompletionView>::empty() =~= views(out@));
            if !(end@ is Done) {
                let kind = self.slots@.slots[i as int].kind;
                assert(remembered_keys(*r, kind, end@, now_secs, now_millis) == r.dnskey_cache@) by {
                    reveal(remembered_keys);
                }
            }
        }
        match end {
            SessionEnd::NeedAddrs { missing, pending } => self.park(i, missing, pending, now),
            SessionEnd::Failed(e) => self.end_search(i, Cause::Failed(e)),
            SessionEnd::NeedsSync => self.end_search(i, Cause::NeedsSync),
            SessionEnd::Done(m) => self.settle_done(r, i, m, now, now_secs, now_millis, out),
        }
    }

    /// Has addresses looked for, for a referral that comes without one.
    fn park(&mut self, i: usize, missing: Vec<Name>, pending: PendingReferral, now: u64) -> (r: Due)
        requires
            old(self).slots@.has(i as int),
            old(self).slots@.high < usize::MAX,
        ensures
            ({
                let m = parked_for(
                    old(self).cfg,
                    old(self).lane(),
                    i as int,
                    views(missing@),
                    pending@,
                    now,
                );
                &&& final(self).lane() == m.lane
                &&& r == m.due
                &&& m.out == Seq::<CompletionView>::empty()
            }),
            final(self).cfg == old(self).cfg,
    {
        if missing.len() == 0 {
            return self.end_search(i, Cause::Failed(RecurseError::NoReachableNs));
        }
        let room: bool = self.live() < self.slot_limit();
        let ghost before = self.lane();
        match self.slots.take(i) {
            None => Due::Nothing,
            Some(slot) => {
                let first = missing[0].clone();
                assert(first@ == views(missing@)[0]);
                let parked = Parked {
                    pending,
                    missing,
                    next_missing: 1,
                    addrs: Vec::new(),
                    addr_ttl: None,
                    children_spawned: 1,
                };
                assert(parked.addrs@ =~= Seq::<SocketAddr>::empty());
                self.spawn(i, slot, parked, first, room, now, Ghost(before))
            },
        }
    }

    #[verifier::spinoff_prover]
    fn settle_done(
        &mut self,
        r: &mut Recursor,
        i: usize,
        m: Message,
        now: u64,
        now_secs: u32,
        now_millis: u64,
        out: &mut Vec<Completion>,
    ) -> (due: Due)
        requires
            old(self).is_sound(),
            old(self).slots@.has(i as int),
            old(self).slots@.slots[i as int].phase is Searching,
            old(self).slots@.high < usize::MAX,
        ensures
            ({
                let end = SessionEndView::Done(m@);
                let v = settled(*old(r), old(self).cfg, old(self).lane(), i as int, end, now);
                &&& final(self).lane() == v.lane
                &&& views(final(out)@) == views(old(out)@) + v.out
                &&& due == v.due
                &&& final(r).dnskey_cache@ == remembered_keys(
                    *old(r),
                    old(self).slots@.slots[i as int].kind,
                    end,
                    now_secs,
                    now_millis,
                )
            }),
            final(self).cfg == old(self).cfg,
            *final(r) == (Recursor { dnskey_cache: final(r).dnskey_cache, ..*old(r) }),
            final(r).same_room(*old(r)),
    {
        proof {
            reveal(remembered_keys);
            assert(views(out@) + Seq::<CompletionView>::empty() =~= views(out@));
        }
        let job: Job = match self.slots.get(i) {
            None => {
                return Due::Nothing;
            },
            Some(slot) => match &slot.kind {
                SlotKind::Root(_) => Job::Question,
                SlotKind::NsAddr { parent } => Job::Address(*parent),
                SlotKind::Dnskey { parent, zone } => Job::Keys(*parent, zone.clone()),
            },
        };
        match job {
            Job::Question => self.root_answer(r, i, m, now, out),
            Job::Address(parent) => {
                proof {
                    lemma_parent_waits(self.cfg, self.slots@, i as int, parent as int);
                }
                let (addrs, ttl) = addresses_in(r, &m);
                self.resume_parent(i, parent, addrs, ttl, now)
            },
            Job::Keys(parent, zone) => {
                proof {
                    lemma_parent_waits(self.cfg, self.slots@, i as int, parent as int);
                }
                let _ = r.absorb_dnskey_response(&zone, &m, now_secs, now_millis);
                self.resume_key_parent(i, parent)
            },
        }
    }

    /// What follows once a search is over without a response.
    pub fn finish(&mut self, i: usize, now: u64, out: &mut Vec<Completion>) -> (due: Due)
        requires
            old(self).is_sound(),
            old(self).slots@.has(i as int),
            old(self).slots@.slots[i as int].phase is Ended,
            old(self).slots@.high < usize::MAX,
        ensures
            ({
                let v = finished(old(self).cfg, old(self).lane(), i as int, now);
                &&& final(self).lane() == v.lane
                &&& views(final(out)@) == views(old(out)@) + v.out
                &&& due == v.due
            }),
            final(self).cfg == old(self).cfg,
            final(self).is_sound(),
    {
        proof {
            law_finishing_forgets_nobody(self.cfg, self.lane(), i as int, now);
            assert(views(out@) + Seq::<CompletionView>::empty() =~= views(out@));
        }
        let (job, cause) = match self.slots.get(i) {
            None => {
                return Due::Nothing;
            },
            Some(slot) => {
                let cause: Cause = match &slot.phase {
                    Phase::Ended(cause) => *cause,
                    _ => {
                        return Due::Nothing;
                    },
                };
                let job: Job = match &slot.kind {
                    SlotKind::Root(_) => Job::Question,
                    SlotKind::NsAddr { parent } => Job::Address(*parent),
                    SlotKind::Dnskey { parent, zone } => Job::Keys(*parent, zone.clone()),
                };
                (job, cause)
            },
        };
        match job {
            Job::Question => {
                let slot = match self.slots.take(i) {
                    None => {
                        return Due::Nothing;
                    },
                    Some(slot) => slot,
                };
                match slot.kind {
                    SlotKind::Root(root) => match cause {
                        Cause::Failed(e) => self.fail_all(root, e, true, out),
                        Cause::NeedsSync => self.retry_all(root, out),
                    },
                    _ => {},
                }
                Due::Nothing
            },
            Job::Address(parent) => {
                proof {
                    lemma_parent_waits(self.cfg, self.slots@, i as int, parent as int);
                }
                match cause {
                    Cause::NeedsSync => {
                        let _ = self.slots.take(i);
                        self.end_search(parent, Cause::NeedsSync)
                    },
                    Cause::Failed(_) => {
                        let none: Vec<SocketAddr> = Vec::new();
                        assert(none@ =~= Seq::<SocketAddr>::empty());
                        self.resume_parent(i, parent, none, None, now)
                    },
                }
            },
            Job::Keys(parent, _) => {
                proof {
                    lemma_parent_waits(self.cfg, self.slots@, i as int, parent as int);
                }
                self.resume_key_parent(i, parent)
            },
        }
    }

    /// The search could not be started. The second result says whether it was for
    /// a question that was handed in just now.
    pub fn start_failed(&mut self, i: usize, now: u64, out: &mut Vec<Completion>) -> (r: (Due, bool))
        requires
            old(self).is_sound(),
            old(self).slots@.has(i as int),
            old(self).slots@.slots[i as int].phase is Starting,
            old(self).slots@.high < usize::MAX,
        ensures
            ({
                let v = not_started(old(self).cfg, old(self).lane(), i as int, now);
                let s = old(self).slots@.slots[i as int];
                &&& final(self).lane() == v.lane
                &&& views(final(out)@) == views(old(out)@) + v.out
                &&& r.0 == v.due
                &&& r.1 == (s.kind is Root && s.phase->Starting_0.submitted)
            }),
            final(self).cfg == old(self).cfg,
            final(self).is_sound(),
    {
        proof {
            reveal(not_started);
            law_a_failed_start_forgets_nobody(self.cfg, self.lane(), i as int, now);
            assert(views(out@) + Seq::<CompletionView>::empty() =~= views(out@));
        }
        let (job, submitted) = match self.slots.get(i) {
            None => {
                return (Due::Nothing, false);
            },
            Some(slot) => {
                let submitted: bool = match &slot.phase {
                    Phase::Starting(order) => order.submitted,
                    _ => {
                        return (Due::Nothing, false);
                    },
                };
                let job: Job = match &slot.kind {
                    SlotKind::Root(_) => Job::Question,
                    SlotKind::NsAddr { parent } => Job::Address(*parent),
                    SlotKind::Dnskey { parent, zone } => Job::Keys(*parent, zone.clone()),
                };
                (job, submitted)
            },
        };
        match job {
            Job::Question => {
                let slot = match self.slots.take(i) {
                    None => {
                        return (Due::Nothing, false);
                    },
                    Some(slot) => slot,
                };
                match slot.kind {
                    SlotKind::Root(root) => {
                        self.fail_all(root, RecurseError::NoReachableNs, !submitted, out);
                    },
                    _ => {},
                }
                (Due::Nothing, submitted)
            },
            Job::Address(parent) => {
                proof {
                    lemma_parent_waits(self.cfg, self.slots@, i as int, parent as int);
                }
                let _ = self.slots.take(i);
                let due = self.end_search(
                    parent,
                    Cause::Failed(RecurseError::NoReachableNs),
                );
                (due, false)
            },
            Job::Keys(parent, _) => {
                proof {
                    lemma_parent_waits(self.cfg, self.slots@, i as int, parent as int);
                }
                let due = self.resume_key_parent(i, parent);
                (due, false)
            },
        }
    }

    /// The first query of a search could not be sent. The next server has its turn,
    /// with the session that is returned; where there is none, the search could not be
    /// started.
    pub fn start_send_failed(
        &mut self,
        r: &mut Recursor,
        i: usize,
        session: Session,
        now: u64,
        out: &mut Vec<Completion>,
    ) -> (next: (Option<Session>, Due, bool))
        requires
            old(self).is_sound(),
            old(self).slots@.has(i as int),
            old(self).slots@.slots[i as int].phase is Starting,
            old(self).slots@.high < usize::MAX,
            session.valid(),
            session.at < session.ladder@.len(),
        ensures
            ({
                let x = session@;
                let v = if x.at + 1 < x.ladder.len() {
                    quiet(old(self).lane(), Due::Nothing)
                } else {
                    not_started(old(self).cfg, old(self).lane(), i as int, now)
                };
                let s = old(self).slots@.slots[i as int];
                &&& next.0 is Some <==> x.at + 1 < x.ladder.len()
                &&& next.0 matches Some(t) ==> t.valid() && t@ == (SessionView { at: x.at + 1, ..x })
                &&& final(self).lane() == v.lane
                &&& views(final(out)@) == views(old(out)@) + v.out
                &&& next.1 == v.due
                &&& next.2 == (next.0 is None && s.kind is Root && s.phase->Starting_0.submitted)
                &&& final(r).infra@ == blamed(*old(r), x, x.ladder[x.at], now)
            }),
            *final(r) == (Recursor { infra: final(r).infra, ..*old(r) }),
            final(self).cfg == old(self).cfg,
            final(self).is_sound(),
            final(r).same_room(*old(r)),
    {
        let (t, more) = r.note_send_failed(session, now);
        if more {
            assert(views(out@) + Seq::<CompletionView>::empty() =~= views(out@));
            return (Some(t), Due::Nothing, false);
        }
        let (due, told) = self.start_failed(i, now, out);
        (None, due, told)
    }

    /// The search was started: its first query is out.
    pub fn started(&mut self, i: usize, session: Session)
        requires
            old(self).is_sound(),
            old(self).slots@.has(i as int),
            old(self).slots@.slots[i as int].phase is Starting,
            old(self).slots@.high < usize::MAX,
            session.valid(),
        ensures
            final(self).lane() == with_slot(
                old(self).lane(),
                i as int,
                SlotView {
                    session: Some(session@),
                    phase: PhaseView::Searching,
                    ..old(self).slots@.slots[i as int]
                },
            ),
            final(self).cfg == old(self).cfg,
            final(self).is_sound(),
    {
        let ghost before = self.lane();
        match self.slots.take(i) {
            None => {},
            Some(slot) => {
                let slot = Slot { session: Some(session), phase: Phase::Searching, ..slot };
                proof {
                    law_a_search_goes_on(self.cfg, before, i as int, slot@);
                }
                self.put_back(i, slot, Ghost(before));
            },
        }
    }

    /// Where and for what the search is to be started.
    pub fn order(&self, i: usize) -> (r: Option<SearchOrder>)
        ensures
            r is Some <==> self.slots@.has(i as int) && self.slots@.slots[i as int].phase is Starting,
            r matches Some(o) ==> self.slots@.slots[i as int].phase == PhaseView::Starting(o@),
    {
        match self.slots.get(i) {
            None => None,
            Some(slot) => match &slot.phase {
                Phase::Starting(o) => Some(
                    SearchOrder {
                        qname: o.qname.clone(),
                        qtype: o.qtype,
                        from: match &o.from {
                            Some(f) => Some((f.0.clone(), copy_servers(&f.1))),
                            None => None,
                        },
                        submitted: o.submitted,
                    },
                ),
                _ => None,
            },
        }
    }

    fn find_question(&self, key: &Name, qtype: u16) -> (r: Option<usize>)
        ensures
            r matches Some(i) ==> is_question(self.lane(), i as int, key@, qtype),
            r is None ==> forall|i: int| !#[trigger] is_question(self.lane(), i, key@, qtype),
    {
        let end: usize = self.slots.high();
        let mut i: usize = 0;
        while i < end
            invariant
                i <= end,
                end == self.slots@.high,
                self.slots@.consistent(),
                forall|k: int| 0 <= k < i ==> !#[trigger] is_question(self.lane(), k, key@, qtype),
            decreases end - i,
        {
            if let Some(slot) = self.slots.get(i) {
                if let SlotKind::Root(root) = &slot.kind {
                    if root.qtype == qtype && root.key.eq_exact(key) {
                        return Some(i);
                    }
                }
            }
            i = i + 1;
        }
        assert forall|k: int| !#[trigger] is_question(self.lane(), k, key@, qtype) by {
            if self.slots@.has(k) {
                assert(0 <= k < self.slots@.high);
            }
        }
        None
    }

    /// Takes a question on. One that asks for unchecked data is not answered here.
    /// Where the same is being asked already, it joins; otherwise a search for it
    /// is to be started, if there is room.
    pub fn submit(
        &mut self,
        r: &Recursor,
        qname: Name,
        qtype: u16,
        token: Token,
        now: u64,
        cd: bool,
    ) -> (s: Submission)
        requires
            old(self).is_sound(),
            old(self).slots@.high < usize::MAX,
        ensures
            final(self).cfg == old(self).cfg,
            final(self).is_sound(),
            ({
                let lane = old(self).lane();
                let key = fold_case(qname@);
                let known = old(self).cfg.singleflight && exists|i: int| #[trigger]
                    is_question(lane, i, key, qtype);
                if cd && !r.ignore_cd {
                    &&& s == Submission::Over(SubmitOutcome::Rejected)
                    &&& final(self).lane() == lane
                } else if known {
                    &&& s == Submission::Over(SubmitOutcome::Merged)
                    &&& exists|i: int| #[trigger]
                        is_question(lane, i, key, qtype) && final(self).lane() == joined(
                            lane,
                            i,
                            token,
                        )
                } else if population(lane) >= old(self).cfg.inflight_max {
                    &&& s == Submission::Over(SubmitOutcome::Rejected)
                    &&& final(self).lane() == lane
                } else {
                    &&& s == Submission::Start(lane.table.next() as usize)
                    &&& final(self).lane() == (LaneView {
                        table: lane.table.added(
                            fresh_root(old(self).cfg, *r, qname@, qtype, token, now),
                        ),
                        ..lane
                    })
                }
            }),
    {
        if r.honors_cd(cd) {
            return Submission::Over(SubmitOutcome::Rejected);
        }
        let key = qname.canonical_key();
        let ghost before = self.lane();
        if self.cfg.singleflight {
            if let Some(i) = self.find_question(&key, qtype) {
                proof {
                    law_joining_adds_one_who_waits(
                        self.cfg,
                        before,
                        i as int,
                        key@,
                        qtype,
                        token,
                    );
                }
                self.join(i, token);
                return Submission::Over(SubmitOutcome::Merged);
            }
        }
        if !self.has_capacity() {
            return Submission::Over(SubmitOutcome::Rejected);
        }
        let deadline: u64 = now.saturating_add(self.cfg.session_budget);
        let ghost name = qname@;
        let root = RootCtx {
            leader: token,
            followers: Vec::new(),
            key,
            qtype,
            acc_answers: Vec::new(),
            asked: None,
            cname_hops: 0,
            dname_hops: 0,
            acc_status: SecurityStatus::Secure,
        };
        assert(views(root.acc_answers@) =~= Seq::<RecordView>::empty());
        assert(root.followers@ =~= Seq::<Token>::empty());
        let slot = Slot {
            kind: SlotKind::Root(root),
            session: None,
            phase: Phase::Starting(SearchOrder { qname, qtype, from: None, submitted: true }),
            ns_budget: r.max_ns_resolves,
            deadline,
        };
        proof {
            law_a_new_question_is_taken_on(self.cfg, *r, before, name, qtype, token, now);
        }
        let i: usize = self.slots.insert(slot);
        Submission::Start(i)
    }

    /// One more waits for a question.
    fn join(&mut self, i: usize, token: Token)
        requires
            old(self).slots@.has(i as int),
            old(self).slots@.slots[i as int].kind is Root,
            old(self).slots@.high < usize::MAX,
        ensures
            final(self).lane() == joined(old(self).lane(), i as int, token),
            final(self).cfg == old(self).cfg,
    {
        let ghost before = self.lane();
        match self.slots.take(i) {
            None => {},
            Some(slot) => {
                let Slot { kind, session, phase, ns_budget, deadline } = slot;
                match kind {
                    SlotKind::Root(mut root) => {
                        root.followers.push(token);
                        let slot = Slot {
                            kind: SlotKind::Root(root),
                            session,
                            phase,
                            ns_budget,
                            deadline,
                        };
                        self.put_back(i, slot, Ghost(before));
                        self.merged = bump(self.merged);
                    },
                    _ => {},
                }
            },
        }
    }

    /// Has the missing keys fetched, or goes on to validation where none is
    /// missing.
    pub fn check_keys(
        &mut self,
        r: &mut Recursor,
        i: usize,
        now: u64,
        now_millis: u64,
        out: &mut Vec<Completion>,
    ) -> (due: Due)
        requires
            old(self).is_sound(),
            old(self).slots@.has(i as int),
            old(self).slots@.slots[i as int].phase is CheckingKeys,
            old(self).slots@.high < usize::MAX,
        ensures
            ({
                let s = old(self).slots@.slots[i as int];
                let chain = s.session->0.state.chain;
                let gone = missing_from(
                    old(r).dnskey_cache@,
                    chain,
                    s.phase->CheckingKeys_0.tried,
                    0,
                    now_millis,
                );
                let missing = match gone.1 {
                    Some(k) => Some((chain[k].zone, chain[k].servers)),
                    None => None,
                };
                let v = keys_checked(old(self).cfg, old(self).lane(), i as int, missing, now);
                &&& final(r).dnskey_cache@ == gone.0
                &&& final(self).lane() == v.lane
                &&& views(final(out)@) == views(old(out)@) + v.out
                &&& due == v.due
            }),
            *final(r) == (Recursor { dnskey_cache: final(r).dnskey_cache, ..*old(r) }),
            final(self).cfg == old(self).cfg,
            final(self).is_sound(),
            final(r).same_room(*old(r)),
    {
        let missing = match self.slots.get(i) {
            None => None,
            Some(slot) => match (&slot.session, &slot.phase) {
                (Some(x), Phase::CheckingKeys(h)) => r.first_chain_zone_missing_dnskey(
                    &x.state.chain,
                    &h.tried,
                    now_millis,
                ),
                _ => {
                    proof {
                        reveal(sound);
                    }
                    None
                },
            },
        };
        self.fetch_keys(i, missing, now, out)
    }

    fn fetch_keys(
        &mut self,
        i: usize,
        missing: Option<(Name, Vec<SocketAddr>)>,
        now: u64,
        out: &mut Vec<Completion>,
    ) -> (due: Due)
        requires
            old(self).is_sound(),
            old(self).slots@.has(i as int),
            old(self).slots@.slots[i as int].phase is CheckingKeys,
            old(self).slots@.high < usize::MAX,
        ensures
            ({
                let v = keys_checked(
                    old(self).cfg,
                    old(self).lane(),
                    i as int,
                    zone_view(missing),
                    now,
                );
                &&& final(self).lane() == v.lane
                &&& views(final(out)@) == views(old(out)@) + v.out
                &&& due == v.due
            }),
            final(self).cfg == old(self).cfg,
            final(self).is_sound(),
    {
        proof {
            reveal(keys_checked);
            law_checking_keys_forgets_nobody(
                self.cfg,
                self.lane(),
                i as int,
                zone_view(missing),
                now,
            );
            assert(self.slots@.slots[i as int].kind is Root) by {
                reveal(sound);
            }
            assert(views(out@) + Seq::<CompletionView>::empty() =~= views(out@));
        }
        let population: usize = self.live();
        let limit: usize = self.slot_limit();
        let ghost before = self.lane();
        let Slot { kind, session, phase, ns_budget, deadline } = match self.slots.take(i) {
            Some(slot) => slot,
            None => {
                return Due::Nothing;
            },
        };
        let (root, held) = match (kind, phase) {
            (SlotKind::Root(root), Phase::CheckingKeys(held)) => (root, held),
            _ => {
                return Due::Nothing;
            },
        };
        match missing {
            None => {
                let slot = Slot {
                    kind: SlotKind::Root(root),
                    session,
                    phase: Phase::Judging(held),
                    ns_budget,
                    deadline,
                };
                self.put_back(i, slot, Ghost(before));
                Due::Judge(i)
            },
            Some((zone, servers)) => {
                if held.fetches < MAX_KEY_FETCHES && (population == 0 || population - 1 < limit) {
                    let mut held = held;
                    let key = zone.canonical_key();
                    proof {
                        lemma_views_push(held.tried@, key);
                    }
                    held.tried.push(key);
                    held.fetches = held.fetches + 1;
                    if now < deadline {
                        let slot = Slot {
                            kind: SlotKind::Root(root),
                            session,
                            phase: Phase::FetchingKeys(held),
                            ns_budget,
                            deadline,
                        };
                        self.put_back(i, slot, Ghost(before));
                        let child = Slot {
                            kind: SlotKind::Dnskey { parent: i, zone: zone.clone() },
                            session: None,
                            phase: Phase::Starting(
                                SearchOrder {
                                    qname: zone.clone(),
                                    qtype: TYPE_DNSKEY,
                                    from: Some((zone, servers)),
                                    submitted: false,
                                },
                            ),
                            ns_budget,
                            deadline,
                        };
                        let k: usize = self.slots.insert(child);
                        Due::Start(k)
                    } else {
                        let slot = Slot {
                            kind: SlotKind::Root(root),
                            session,
                            phase: Phase::CheckingKeys(held),
                            ns_budget,
                            deadline,
                        };
                        self.put_back(i, slot, Ghost(before));
                        Due::CheckKeys(i)
                    }
                } else {
                    self.retry_all(root, out);
                    Due::Nothing
                }
            },
        }
    }

    /// What validation has to look at: the name and the type of the records, and
    /// whether they are an answer (`true`) or are denied. An alias is looked at where
    /// it stands.
    pub fn to_judge(&self, i: usize) -> (r: Option<(Name, u16, bool)>)
        requires
            self.is_sound(),
        ensures
            ({
                let s = self.slots@.slots[i as int];
                let q = if self.slots@.has(i as int) {
                    question_to_judge(s)
                } else {
                    None
                };
                &&& r is Some <==> q is Some
                &&& r matches Some(x) ==> q == Some((x.0@, x.1, x.2))
            }),
    {
        match self.slots.get(i) {
            None => None,
            Some(slot) => {
                proof {
                    assert(crate::slots::slot_ok(self.slots@.slots[i as int])) by {
                        reveal(sound);
                    }
                }
                match &slot.phase {
                    Phase::JudgingAlias(hop, _) => Some((hop.owner.clone(), hop.atype, true)),
                    Phase::Judging(held) => match &slot.session {
                        Some(x) => Some((x.qname.clone(), x.qtype, held.positive)),
                        None => None,
                    },
                    _ => None,
                }
            },
        }
    }

    /// Validation gave its verdict, or could not give one.
    pub fn judge(
        &mut self,
        r: &Recursor,
        i: usize,
        status: Option<SecurityStatus>,
        counter: &mut ValidationCounter,
        now: u64,
        out: &mut Vec<Completion>,
    ) -> (due: Due)
        requires
            old(self).is_sound(),
            old(self).slots@.has(i as int),
            old(self).slots@.slots[i as int].phase is Judging
                || old(self).slots@.slots[i as int].phase is JudgingAlias,
            old(self).slots@.high < usize::MAX,
        ensures
            ({
                let v = verdict_given(*r, old(self).lane(), i as int, status, now);
                &&& final(self).lane() == v.lane
                &&& views(final(out)@) == views(old(out)@) + v.out
                &&& due == v.due
            }),
            final(self).cfg == old(self).cfg,
            final(self).is_sound(),
            final(counter).bogus_total == ({
                let s = old(self).slots@.slots[i as int];
                let bad = s.phase is Judging && status is Some && held_back(
                    *r,
                    Some(combined(s.kind->Root_0.acc_status, status->0)),
                    false,
                );
                if bad {
                    counted(old(counter).bogus_total)
                } else {
                    old(counter).bogus_total
                }
            }),
    {
        proof {
            reveal(verdict_given);
            law_a_verdict_forgets_nobody(*r, self.cfg, self.lane(), i as int, status, now);
            assert(crate::slots::slot_ok(self.slots@.slots[i as int])) by {
                reveal(sound);
            }
            assert(views(out@) + Seq::<CompletionView>::empty() =~= views(out@));
        }
        let ghost before = self.lane();
        let Slot { kind, session, phase, ns_budget, deadline } = match self.slots.take(i) {
            Some(slot) => slot,
            None => {
                return Due::Nothing;
            },
        };
        let root = match kind {
            SlotKind::Root(root) => root,
            _ => {
                return Due::Nothing;
            },
        };
        match (phase, status) {
            (Phase::JudgingAlias(hop, response), Some(x)) => self.restart_root(
                i,
                root,
                hop,
                response.questions,
                Some(x),
                ns_budget,
                deadline,
                now,
                out,
                Ghost(before),
            ),
            (Phase::Judging(held), Some(x)) => {
                let status: SecurityStatus = root.acc_status.combine(x);
                match session {
                    Some(s) => {
                        self.deliver(r, root, s, held, Some(status), counter, out);
                    },
                    None => {},
                }
                Due::Nothing
            },
            _ => {
                self.retry_all(root, out);
                Due::Nothing
            },
        }
    }

    /// The query of a search went out. `resend` says that it went out again after a
    /// server did not reply: the search is then over where its time is used up.
    pub fn sent(&mut self, i: usize, query: Message, resend: bool, now: u64) -> (due: Due)
        requires
            old(self).is_sound(),
            old(self).slots@.has(i as int),
            old(self).slots@.slots[i as int].phase is Searching,
            old(self).slots@.slots[i as int].session->0.at < old(
                self,
            ).slots@.slots[i as int].session->0.ladder.len(),
            old(self).slots@.high < usize::MAX,
        ensures
            ({
                let v = gone_out(old(self).lane(), i as int, query@, resend, now);
                &&& final(self).lane() == v.lane
                &&& due == v.due
            }),
            final(self).cfg == old(self).cfg,
            final(self).is_sound(),
    {
        proof {
            assert(crate::slots::slot_ok(self.slots@.slots[i as int])) by {
                reveal(sound);
            }
        }
        let ghost before = self.lane();
        let Slot { kind, session, phase, ns_budget, deadline } = match self.slots.take(i) {
            Some(slot) => slot,
            None => {
                return Due::Nothing;
            },
        };
        let mut x = match session {
            Some(x) => x,
            None => {
                return Due::Nothing;
            },
        };
        x.note_sent(query, deadline, now);
        let slot = Slot { kind, session: Some(x), phase, ns_budget, deadline };
        proof {
            law_a_search_goes_on(self.cfg, before, i as int, slot@);
        }
        self.put_back(i, slot, Ghost(before));
        if resend && now >= deadline {
            let cause: Cause = Cause::Failed(RecurseError::NoResponse);
            proof {
                law_a_search_ends(self.cfg, self.lane(), i as int, cause);
            }
            return self.end_search(i, cause);
        }
        Due::Nothing
    }

    /// The query of a search cannot be put into octets. No server is blamed for it,
    /// and the search is over.
    pub fn encode_failed(&mut self, i: usize, resend: bool) -> (due: Due)
        requires
            old(self).is_sound(),
            old(self).slots@.has(i as int),
            old(self).slots@.slots[i as int].phase is Searching,
            old(self).slots@.high < usize::MAX,
        ensures
            ({
                let v = end_slot(old(self).lane(), i as int, out_of_servers(resend));
                &&& final(self).lane() == v.lane
                &&& due == v.due
            }),
            final(self).cfg == old(self).cfg,
            final(self).is_sound(),
    {
        let cause: Cause = Cause::Failed(
            if resend {
                RecurseError::NoResponse
            } else {
                RecurseError::NoReachableNs
            },
        );
        proof {
            law_a_search_ends(self.cfg, self.lane(), i as int, cause);
        }
        self.end_search(i, cause)
    }

    /// The query of a search could not be sent. The next server has its turn; where
    /// there is none, the search is over. `resend` says that it was to go out again
    /// after a server did not reply.
    pub fn send_failed(&mut self, r: &mut Recursor, i: usize, resend: bool, now: u64) -> (due: Due)
        requires
            old(self).is_sound(),
            old(self).slots@.has(i as int),
            old(self).slots@.slots[i as int].phase is Searching,
            old(self).slots@.slots[i as int].session->0.at < old(
                self,
            ).slots@.slots[i as int].session->0.ladder.len(),
            old(self).slots@.high < usize::MAX,
        ensures
            ({
                let s = old(self).slots@.slots[i as int];
                let x = s.session->0;
                let lane = with_slot(
                    old(self).lane(),
                    i as int,
                    SlotView { session: Some(SessionView { at: x.at + 1, ..x }), ..s },
                );
                let v = if x.at + 1 < x.ladder.len() {
                    quiet(
                        lane,
                        if resend {
                            Due::Resend(i)
                        } else {
                            Due::Send(i)
                        },
                    )
                } else {
                    end_slot(lane, i as int, out_of_servers(resend))
                };
                &&& final(self).lane() == v.lane
                &&& due == v.due
                &&& final(r).infra@ == blamed(*old(r), x, x.ladder[x.at], now)
            }),
            *final(r) == (Recursor { infra: final(r).infra, ..*old(r) }),
            final(self).cfg == old(self).cfg,
            final(self).is_sound(),
            final(r).same_room(*old(r)),
    {
        proof {
            assert(crate::slots::slot_ok(self.slots@.slots[i as int])) by {
                reveal(sound);
            }
        }
        let ghost before = self.lane();
        let Slot { kind, session, phase, ns_budget, deadline } = match self.slots.take(i) {
            Some(slot) => slot,
            None => {
                return Due::Nothing;
            },
        };
        let x = match session {
            Some(x) => x,
            None => {
                return Due::Nothing;
            },
        };
        let (t, more) = r.note_send_failed(x, now);
        let slot = Slot { kind, session: Some(t), phase, ns_budget, deadline };
        proof {
            law_a_search_goes_on(self.cfg, before, i as int, slot@);
        }
        self.put_back(i, slot, Ghost(before));
        if more {
            return if resend {
                Due::Resend(i)
            } else {
                Due::Send(i)
            };
        }
        let cause: Cause = Cause::Failed(
            if resend {
                RecurseError::NoResponse
            } else {
                RecurseError::NoReachableNs
            },
        );
        proof {
            law_a_search_ends(self.cfg, self.lane(), i as int, cause);
        }
        self.end_search(i, cause)
    }

    /// Time passes for a search: a server that did not reply in time makes way for
    /// the next one, and a search that has used up its time is over. Where both come
    /// together, the next server is asked first.
    pub fn on_tick(&mut self, r: &mut Recursor, i: usize, now: u64) -> (due: Due)
        requires
            old(self).is_sound(),
            old(self).slots@.high < usize::MAX,
        ensures
            ({
                let s = old(self).slots@.slots[i as int];
                if old(self).slots@.has(i as int) && s.phase is Searching {
                    let x = s.session->0;
                    let v = ticked(old(self).lane(), i as int, now);
                    &&& final(self).lane() == v.lane
                    &&& due == v.due
                    &&& final(r).infra@ == if x.awaited matches Some(a) && now >= a.deadline {
                        blamed(*old(r), x, x.awaited->0.target, now)
                    } else {
                        old(r).infra@
                    }
                } else {
                    &&& final(self).lane() == old(self).lane()
                    &&& due == Due::Nothing
                    &&& final(r).infra@ == old(r).infra@
                }
            }),
            *final(r) == (Recursor { infra: final(r).infra, ..*old(r) }),
            final(self).cfg == old(self).cfg,
            final(self).is_sound(),
            final(r).same_room(*old(r)),
    {
        let searching: bool = match self.slots.get(i) {
            None => false,
            Some(slot) => match &slot.phase {
                Phase::Searching => true,
                _ => false,
            },
        };
        if !searching {
            return Due::Nothing;
        }
        proof {
            assert(crate::slots::slot_ok(self.slots@.slots[i as int])) by {
                reveal(sound);
            }
        }
        let ghost before = self.lane();
        let Slot { kind, session, phase, ns_budget, deadline } = match self.slots.take(i) {
            Some(slot) => slot,
            None => {
                return Due::Nothing;
            },
        };
        let x = match session {
            Some(x) => x,
            None => {
                return Due::Nothing;
            },
        };
        let past: bool = match &x.awaited {
            Some(a) => now >= a.deadline,
            None => false,
        };
        let (t, more) = if past {
            r.on_exchange_timeout(x, now)
        } else {
            (x, true)
        };
        let over: bool = if past {
            !more
        } else {
            now >= deadline
        };
        let slot = Slot { kind, session: Some(t), phase, ns_budget, deadline };
        proof {
            law_a_search_goes_on(self.cfg, before, i as int, slot@);
            if !past {
                assert(with_slot(before, i as int, slot@) =~= before) by {
                    assert(before.table.slots.insert(i as int, slot@) =~= before.table.slots);
                }
            }
        }
        self.put_back(i, slot, Ghost(before));
        if over {
            let cause: Cause = Cause::Failed(RecurseError::NoResponse);
            proof {
                law_a_search_ends(self.cfg, self.lane(), i as int, cause);
            }
            return self.end_search(i, cause);
        }
        if past {
            Due::Resend(i)
        } else {
            Due::Nothing
        }
    }

    /// A datagram came in for a search. One that is not taken changes nothing.
    pub fn reply(
        &mut self,
        r: &mut Recursor,
        i: usize,
        from: SocketAddr,
        reply: Message,
        now: u64,
        now_secs: u32,
        now_millis: u64,
        out: &mut Vec<Completion>,
    ) -> (due: Due)
        requires
            old(self).is_sound(),
            old(self).slots@.high < usize::MAX,
        ensures
            ({
                let s = old(self).slots@.slots[i as int];
                let taken = old(self).slots@.has(i as int) && s.phase is Searching && takes_reply(
                    *old(r),
                    s.session->0,
                    from,
                    reply@,
                );
                &&& !taken ==> {
                    &&& final(self).lane() == old(self).lane()
                    &&& views(final(out)@) == views(old(out)@)
                    &&& due == Due::Nothing
                    &&& *final(r) == *old(r)
                }
                &&& taken ==> exists|mid: Recursor, t: SessionView, end: Option<SessionEndView>|
                    {
                        &&& #[trigger] responds(
                            *old(r),
                            mid,
                            s.session->0,
                            reply@,
                            now,
                            now_millis,
                            t,
                            end,
                        )
                        &&& went_on(
                            mid,
                            *final(r),
                            old(self).cfg,
                            with_slot(
                                old(self).lane(),
                                i as int,
                                SlotView { session: Some(t), ..s },
                            ),
                            i,
                            end,
                            now,
                            now_secs,
                            now_millis,
                            final(self).lane(),
                            views(old(out)@),
                            views(final(out)@),
                            due,
                        )
                    }
            }),
            final(self).cfg == old(self).cfg,
            final(self).is_sound(),
            final(r).same_room(*old(r)),
    {
        let accepted: bool = match self.slots.get(i) {
            None => false,
            Some(slot) => match (&slot.phase, &slot.session) {
                (Phase::Searching, Some(x)) => r.try_recv(x, from, &reply),
                _ => {
                    proof {
                        reveal(sound);
                    }
                    false
                },
            },
        };
        if !accepted {
            return Due::Nothing;
        }
        proof {
            assert(crate::slots::slot_ok(self.slots@.slots[i as int])) by {
                reveal(sound);
            }
        }
        let ghost before = self.lane();
        let ghost s = self.slots@.slots[i as int];
        let Slot { kind, session, phase, ns_budget, deadline } = match self.slots.take(i) {
            Some(slot) => slot,
            None => {
                return Due::Nothing;
            },
        };
        let x = match session {
            Some(x) => x,
            None => {
                return Due::Nothing;
            },
        };
        let (t, end) = r.on_response(x, reply, now, now_millis);
        let ghost mid = *r;
        let slot = Slot { kind, session: Some(t), phase, ns_budget, deadline };
        let ghost tv = t@;
        proof {
            law_a_search_goes_on(self.cfg, before, i as int, slot@);
        }
        self.put_back(i, slot, Ghost(before));
        assert(responds(*old(r), mid, s.session->0, reply@, now, now_millis, tv, end_view(end)));
        self.go_on(r, i, end, now, now_secs, now_millis, out)
    }

    /// Sends the next query of a search, or sees where its end leads.
    fn go_on(
        &mut self,
        r: &mut Recursor,
        i: usize,
        end: Option<SessionEnd>,
        now: u64,
        now_secs: u32,
        now_millis: u64,
        out: &mut Vec<Completion>,
    ) -> (due: Due)
        requires
            old(self).is_sound(),
            old(self).slots@.has(i as int),
            old(self).slots@.slots[i as int].phase is Searching,
            old(self).slots@.high < usize::MAX,
        ensures
            went_on(
                *old(r),
                *final(r),
                old(self).cfg,
                old(self).lane(),
                i,
                end_view(end),
                now,
                now_secs,
                now_millis,
                final(self).lane(),
                views(old(out)@),
                views(final(out)@),
                due,
            ),
            final(self).cfg == old(self).cfg,
            final(self).is_sound(),
            final(r).same_room(*old(r)),
    {
        match end {
            None => Due::Send(i),
            Some(e) => self.settle(r, i, e, now, now_secs, now_millis, out),
        }
    }

    /// Goes on with a referral whose addresses were looked for.
    pub fn resume(
        &mut self,
        r: &mut Recursor,
        i: usize,
        now: u64,
        now_secs: u32,
        now_millis: u64,
        out: &mut Vec<Completion>,
    ) -> (due: Due)
        requires
            old(self).is_sound(),
            old(self).slots@.has(i as int),
            old(self).slots@.slots[i as int].phase is Resuming,
            old(self).slots@.high < usize::MAX,
        ensures
            ({
                let s = old(self).slots@.slots[i as int];
                let k = s.phase->Resuming_0;
                exists|mid: Recursor, t: SessionView, end: Option<SessionEndView>|
                    {
                        &&& #[trigger] resumes(
                            *old(r),
                            mid,
                            s.session->0,
                            PendingReferralView {
                                addrs: k.pending.addrs + k.addrs,
                                address_ttl: min_ttl(k.pending.address_ttl, k.addr_ttl),
                                ..k.pending
                            },
                            now,
                            now_millis,
                            t,
                            end,
                        )
                        &&& went_on(
                            mid,
                            *final(r),
                            old(self).cfg,
                            with_slot(
                                old(self).lane(),
                                i as int,
                                SlotView { session: Some(t), phase: PhaseView::Searching, ..s },
                            ),
                            i,
                            end,
                            now,
                            now_secs,
                            now_millis,
                            final(self).lane(),
                            views(old(out)@),
                            views(final(out)@),
                            due,
                        )
                    }
            }),
            final(self).cfg == old(self).cfg,
            final(self).is_sound(),
            final(r).same_room(*old(r)),
    {
        proof {
            assert(crate::slots::slot_ok(self.slots@.slots[i as int])) by {
                reveal(sound);
            }
        }
        let ghost before = self.lane();
        let ghost s = self.slots@.slots[i as int];
        let Slot { kind, session, phase, ns_budget, deadline } = match self.slots.take(i) {
            Some(slot) => slot,
            None => {
                return Due::Nothing;
            },
        };
        let (x, k) = match (session, phase) {
            (Some(x), Phase::Resuming(k)) => (x, k),
            _ => {
                return Due::Nothing;
            },
        };
        let ghost kv = k@;
        let Parked { pending, missing: _, next_missing: _, addrs, addr_ttl, children_spawned: _ } = k;
        let (t, end) = r.resume_with_addrs(x, pending, addrs, addr_ttl, now, now_millis);
        let ghost mid = *r;
        let slot = Slot { kind, session: Some(t), phase: Phase::Searching, ns_budget, deadline };
        let ghost tv = t@;
        proof {
            law_a_search_goes_on(self.cfg, before, i as int, slot@);
            assert(resumes(
                *old(r),
                mid,
                s.session->0,
                PendingReferralView {
                    addrs: kv.pending.addrs + kv.addrs,
                    address_ttl: min_ttl(kv.pending.address_ttl, kv.addr_ttl),
                    ..kv.pending
                },
                now,
                now_millis,
                tv,
                end_view(end),
            ));
        }
        self.put_back(i, slot, Ghost(before));
        self.go_on(r, i, end, now, now_secs, now_millis, out)
    }

    /// The places of the searches that read replies.
    pub fn collect_pollfds(&self) -> (r: Vec<usize>)
        ensures
            r@ == searching_below(self.slots@, self.slots@.high as nat),
    {
        let end: usize = self.slots.high();
        let mut out: Vec<usize> = Vec::new();
        let mut i: usize = 0;
        while i < end
            invariant
                i <= end,
                end == self.slots@.high,
                out@ == searching_below(self.slots@, i as nat),
            decreases end - i,
        {
            if let Some(slot) = self.slots.get(i) {
                if let Phase::Searching = &slot.phase {
                    out.push(i);
                }
            }
            i = i + 1;
        }
        out
    }

    /// How long until the first wait for a reply ends.
    pub fn next_deadline_in(&self, now: u64) -> (r: Option<u64>)
        ensures
            r == match first_deadline(self.slots@, self.slots@.high as nat) {
                Some(d) => Some(
                    if d >= now {
                        (d - now) as u64
                    } else {
                        0
                    },
                ),
                None => None,
            },
    {
        let end: usize = self.slots.high();
        let mut least: Option<u64> = None;
        let mut i: usize = 0;
        while i < end
            invariant
                i <= end,
                end == self.slots@.high,
                least == first_deadline(self.slots@, i as nat),
            decreases end - i,
        {
            if let Some(slot) = self.slots.get(i) {
                if let (Phase::Searching, Some(x)) = (&slot.phase, &slot.session) {
                    if let Some(a) = &x.awaited {
                        least = match least {
                            Some(d) => if d <= a.deadline {
                                Some(d)
                            } else {
                                Some(a.deadline)
                            },
                            None => Some(a.deadline),
                        };
                    }
                }
            }
            i = i + 1;
        }
        match least {
            Some(d) => Some(d.saturating_sub(now)),
            None => None,
        }
    }
}

/// The places below `n` of the searches that read replies.
pub open spec fn searching_below(t: TableView<SlotView>, n: nat) -> Seq<usize>
    decreases n,
{
    if n == 0 {
        Seq::empty()
    } else {
        let rest = searching_below(t, (n - 1) as nat);
        if t.has(n - 1) && t.slots[n - 1].phase is Searching {
            rest.push((n - 1) as usize)
        } else {
            rest
        }
    }
}

/// When the wait of a search for a reply ends. One that waits for another search does
/// not count.
pub open spec fn wait_end(t: TableView<SlotView>, i: int) -> Option<u64> {
    if !t.has(i) || !(t.slots[i].phase is Searching) {
        None
    } else {
        match t.slots[i].session {
            Some(x) => match x.awaited {
                Some(a) => Some(a.deadline),
                None => None,
            },
            None => None,
        }
    }
}

/// When the first of the waits below `n` ends.
pub open spec fn first_deadline(t: TableView<SlotView>, n: nat) -> Option<u64>
    decreases n,
{
    if n == 0 {
        None
    } else {
        let rest = first_deadline(t, (n - 1) as nat);
        match (rest, wait_end(t, n - 1)) {
            (Some(a), Some(b)) => if a <= b {
                Some(a)
            } else {
                Some(b)
            },
            (None, Some(b)) => Some(b),
            (a, None) => a,
        }
    }
}

/// What passing time does to a search that reads replies.
pub open spec fn ticked(lane: LaneView, i: int, now: u64) -> Moved {
    let s = lane.table.slots[i];
    let x = s.session->0;
    let past = x.awaited matches Some(a) && now >= a.deadline;
    let t = SessionView {
        awaited: None,
        at: if x.at < x.ladder.len() {
            x.at + 1
        } else {
            x.at
        },
        ..x
    };
    let after = if past {
        with_slot(lane, i, SlotView { session: Some(t), ..s })
    } else {
        lane
    };
    if past && x.at + 1 < x.ladder.len() {
        quiet(after, Due::Resend(i as usize))
    } else if past || now >= s.deadline {
        end_slot(after, i, Cause::Failed(RecurseError::NoResponse))
    } else {
        quiet(after, Due::Nothing)
    }
}

/// Why a search is over that has no server left to ask: none could be reached, or,
/// after one was asked, none replied.
pub open spec fn out_of_servers(resend: bool) -> Cause {
    Cause::Failed(
        if resend {
            RecurseError::NoResponse
        } else {
            RecurseError::NoReachableNs
        },
    )
}

/// What a query that went out does to a search.
pub open spec fn gone_out(
    lane: LaneView,
    i: int,
    query: MessageView,
    resend: bool,
    now: u64,
) -> Moved {
    let s = lane.table.slots[i];
    let x = s.session->0;
    let a = AwaitedView {
        sent: query,
        target: x.ladder[x.at],
        sent_at: now,
        deadline: if now + x.per_server <= s.deadline {
            (now + x.per_server) as u64
        } else {
            s.deadline
        },
    };
    let t = SessionView { awaited: Some(a), ..x };
    let after = with_slot(lane, i, SlotView { session: Some(t), ..s });
    if resend && now >= s.deadline {
        end_slot(after, i, Cause::Failed(RecurseError::NoResponse))
    } else {
        quiet(after, Due::Nothing)
    }
}

/// A search does not outlast its time: in the tick in which that is used up it ends, or
/// the next server is asked, and it ends as soon as the query went out.
pub proof fn law_a_search_ends_with_its_time(lane: LaneView, i: int, query: MessageView, now: u64)
    requires
        lane.table.has(i),
        lane.table.slots[i].phase is Searching,
        lane.table.slots[i].session is Some,
        now >= lane.table.slots[i].deadline,
    ensures
        ticked(lane, i, now).due == Due::Finish(i as usize) || ticked(lane, i, now).due
            == Due::Resend(i as usize),
        gone_out(lane, i, query, true, now).due == Due::Finish(i as usize),
{
}

/// What a step of a search leads to: its next query is sent, or its end is
/// settled.
pub open spec fn went_on(
    before: Recursor,
    after: Recursor,
    cfg: ReactorConfig,
    lane: LaneView,
    i: usize,
    end: Option<SessionEndView>,
    now: u64,
    now_secs: u32,
    now_millis: u64,
    lane_after: LaneView,
    out: Seq<CompletionView>,
    out_after: Seq<CompletionView>,
    due: Due,
) -> bool {
    match end {
        None => {
            &&& lane_after == lane
            &&& out_after == out
            &&& due == Due::Send(i)
            &&& after == before
        },
        Some(e) => {
            let v = settled(before, cfg, lane, i as int, e, now);
            &&& lane_after == v.lane
            &&& out_after == out + v.out
            &&& due == v.due
            &&& after.dnskey_cache@ == remembered_keys(
                before,
                lane.table.slots[i as int].kind,
                e,
                now_secs,
                now_millis,
            )
            &&& after == Recursor { dnskey_cache: after.dnskey_cache, ..before }
        },
    }
}

/// Where a search starts that is not told where: at the closest zone that is known
/// and may be started from, or at the root.
pub open spec fn chosen_start(r: Recursor, qname: Seq<Seq<u8>>, now_millis: u64) -> (
    Seq<Seq<u8>>,
    Seq<SocketAddr>,
) {
    let root = (Seq::<Seq<u8>>::empty(), r.roots@);
    match deepest_from(r.deleg_cache@, qname, qname.len() as int, now_millis).1 {
        Some(f) => {
            let zone = last_labels(qname, f.0);
            if r.start_ok(zone, false, now_millis) {
                (zone, f.1)
            } else {
                root
            }
        },
        None => root,
    }
}

impl Recursor {
    /// Opens the search that was ordered. None where no server may be asked.
    pub fn open_search(&mut self, order: SearchOrder, now: u64, now_millis: u64) -> (r: Option<Session>)
        requires
            old(self).max_referrals + order.qname@.len() + 2 <= usize::MAX,
        ensures
            ({
                let o = order@;
                let (zone, servers) = match o.from {
                    Some(f) => f,
                    None => chosen_start(*old(self), o.qname, now_millis),
                };
                &&& r is Some <==> ladder_of(*final(self), servers, zone, now).len() > 0
                &&& r matches Some(s) ==> s.valid() && s@ == opened(
                    *final(self),
                    o.qname,
                    o.qtype,
                    zone,
                    servers,
                    now,
                )
                &&& o.from is Some ==> *final(self) == *old(self)
                &&& o.from is None ==> {
                    let found = deepest_from(
                        old(self).deleg_cache@,
                        o.qname,
                        o.qname.len() as int,
                        now_millis,
                    );
                    &&& final(self).deleg_cache@ == found.0
                    &&& final(self).validated_keys@ == match found.1 {
                        Some(f) if old(self).validates(false) => {
                            let z = last_labels(o.qname, f.0);
                            let ok = old(self).start_ok(z, false, now_millis);
                            after_fetch(old(self).validated_keys@, fold_case(z), ok)
                        },
                        _ => old(self).validated_keys@,
                    }
                }
            }),
            *final(self) == (Recursor {
                deleg_cache: final(self).deleg_cache,
                validated_keys: final(self).validated_keys,
                ..*old(self)
            }),
            final(self).same_room(*old(self)),
    {
        let SearchOrder { qname, qtype, from, submitted: _ } = order;
        let (zone, servers) = match from {
            Some(f) => f,
            None => match self.cached_start(&qname, false, now_millis) {
                Some(f) => f,
                None => {
                    let root = Name::root();
                    assert(root@ =~= Seq::<Seq<u8>>::empty());
                    (root, copy_servers(&self.roots))
                },
            },
        };
        self.start_at(qname, qtype, zone, servers, now)
    }
}

/// What the one who handed a question in is told once its search was to start.
pub fn submit_outcome(started: bool) -> (r: SubmitOutcome)
    ensures
        r == if started {
            SubmitOutcome::Accepted
        } else {
            SubmitOutcome::Failed
        },
{
    if started {
        SubmitOutcome::Accepted
    } else {
        SubmitOutcome::Failed
    }
}

pub open spec fn zone_view(z: Option<(Name, Vec<SocketAddr>)>) -> Option<
    (Seq<Seq<u8>>, Seq<SocketAddr>),
> {
    match z {
        Some(z) => Some((z.0@, z.1@)),
        None => None,
    }
}

/// What a search works for, apart from what it holds.
enum Job {
    Question,
    Address(usize),
    Keys(usize, Name),
}

/// The keys that are remembered once a search ended: those in a response to a
/// search for keys.
#[verifier::opaque]
pub open spec fn remembered_keys(
    r: Recursor,
    kind: KindView,
    end: SessionEndView,
    now_secs: u32,
    now_millis: u64,
) -> Seq<(Seq<Seq<u8>>, crate::cache::DnskeyEntryView)> {
    match (kind, end) {
        (KindView::Dnskey { zone, .. }, SessionEndView::Done(m)) => {
            let keys = keys_in(m, zone);
            if keys.records.len() > 0 && keys.signatures.len() > 0 {
                r.keys_stored(fold_case(zone), keys, keys_ttl(m, zone, now_secs), now_millis)
            } else {
                r.dnskey_cache@
            }
        },
        _ => r.dnskey_cache@,
    }
}

/// The parent of a search is there, waits for it, and is another one.
proof fn lemma_parent_waits(
    cfg: ReactorConfig,
    t: TableView<SlotView>,
    c: int,
    p: int,
)
    requires
        sound(cfg, t),
        is_child(t, c, p),
        !(t.slots[c].phase is Parked),
        !(t.slots[c].phase is FetchingKeys),
    ensures
        t.has(p),
        c != p,
        t.slots[c].kind is NsAddr ==> t.slots[p].phase is Parked,
        t.slots[c].kind is Dnskey ==> t.slots[p].phase is FetchingKeys,
{
    reveal(sound);
    assert(crate::slots::is_awaited(t, c, p));
}

/// The message that goes out.
fn message_out(
    r: &Recursor,
    session: &Session,
    acc: Vec<Record>,
    asked: Option<Vec<Question>>,
    held: Held,
    status: Option<SecurityStatus>,
    counter: &mut ValidationCounter,
    Ghost(c): Ghost<RootView>,
) -> (m: Message)
    requires
        c.acc_answers == views(acc@),
        c.asked == match asked {
            Some(q) => Some(views(q@)),
            None => None,
        },
    ensures
        m@ == given_out(*r, session@, c, held@, status),
        final(counter).bogus_total == if held_back(*r, status, false) {
            counted(old(counter).bogus_total)
        } else {
            old(counter).bogus_total
        },
{
    proof {
        reveal(given_out);
    }
    let positive: bool = held.positive;
    let n: usize = session.state.chain.len();
    let leaf: Option<&Name> = if n == 0 {
        None
    } else {
        assert(views(session.state.chain@).last() == session.state.chain@[n - 1]@);
        Some(&session.state.chain[n - 1].zone)
    };
    let (qname, qtype) = (&session.qname, session.qtype);
    let out = match asked {
        None => r.finish_terminal(held.msg, qname, qtype, positive, status, false, leaf, counter),
        Some(questions) => {
            let tail = finish_inner(held.msg, qname, qtype, positive, leaf);
            let whole = merge_tail(acc, &questions, tail);
            let mut out = r.judge_answer(whole, status, false, counter);
            out.header.response = true;
            out.header.recursion_available = true;
            out
        },
    };
    deliver(out)
}

/// The addresses in an answer of servers that may be asked, and how long they
/// hold.
fn addresses_in(r: &Recursor, m: &Message) -> (f: (Vec<SocketAddr>, Option<u32>))
    ensures
        (f.0@, f.1) == found_addresses(*r, m@),
{
    let ghost p = is_address(*r);
    let used = pick(
        &m.answers,
        |x: &Record| -> (b: bool)
            ensures
                b == is_address(*r)(x@)
            {
                match address_in(&x.rdata) {
                    Some(ip) => r.server_eligible(ip),
                    None => false,
                }
            },
        Ghost(p),
    );
    proof {
        lemma_filter_holds(m@.answers, p);
        assert forall|k: int| 0 <= k < used.len() implies addr_of(
            (#[trigger] used@[k])@.rdata,
        ) is Some by {
            assert(p(views(used@)[k]));
        }
    }
    let mut addrs: Vec<SocketAddr> = Vec::new();
    let mut i: usize = 0;
    while i < used.len()
        invariant
            i <= used.len(),
            forall|k: int| 0 <= k < used.len() ==> addr_of((#[trigger] used@[k])@.rdata) is Some,
            addrs@ =~= sockets(views(used@), r.port).take(i as int),
        decreases used.len() - i,
    {
        match address_in(&used[i].rdata) {
            Some(ip) => {
                addrs.push(SocketAddr::new(ip, r.port));
            },
            None => {
                assert(addr_of(used@[i as int]@.rdata) is Some);
            },
        }
        i = i + 1;
    }
    assert(addrs@ =~= sockets(views(used@), r.port));
    let ttl = least_ttl_of(&used);
    (addrs, ttl)
}

/// What passing time does to a search that reads replies: nothing while the wait for the
/// server and the time of the search last. Past the wait the next server has its turn
/// where there is one, and the search is over where there is none; it is over too where
/// its time is up before the wait is.
pub proof fn law_what_time_does_to_a_search(lane: LaneView, i: int, now: u64, x: SessionView)
    requires
        lane.table.has(i),
        lane.table.slots[i].phase is Searching,
        lane.table.slots[i].session == Some(x),
    ensures
        ({
            let t = ticked(lane, i, now);
            let s = t.lane.table.slots[i];
            let past = x.awaited is Some && now >= x.awaited->0.deadline;
            &&& t.out.len() == 0
            &&& !past && now < lane.table.slots[i].deadline ==> t.lane == lane && t.due is Nothing
            &&& past && x.at + 1 < x.ladder.len() ==> t.due == Due::Resend(i as usize) && (s.session
                matches Some(y) && y.at == x.at + 1 && y.awaited is None && y.ladder == x.ladder
                && y.plan == x.plan && y.state == x.state) && s.phase is Searching
            &&& (past && x.at + 1 >= x.ladder.len()) || (!past && now
                >= lane.table.slots[i].deadline) ==> t.due == Due::Finish(i as usize) && s.phase
                == PhaseView::Ended(Cause::Failed(RecurseError::NoResponse))
        }),
{
}

/// A query that went out is awaited from the server whose turn it is, for the share that
/// each server has and no longer than the search has.
pub proof fn law_a_query_that_went_out_is_awaited(
    lane: LaneView,
    i: int,
    query: MessageView,
    resend: bool,
    now: u64,
    x: SessionView,
)
    requires
        lane.table.has(i),
        lane.table.slots[i].session == Some(x),
    ensures
        ({
            let t = gone_out(lane, i, query, resend, now);
            let s = t.lane.table.slots[i];
            &&& t.out.len() == 0
            &&& s.session matches Some(y) && y.at == x.at && y.ladder == x.ladder && y.plan
                == x.plan && (y.awaited matches Some(a) && a.sent == query && a.target
                == x.ladder[x.at] && a.sent_at == now && a.deadline <= lane.table.slots[i].deadline
                && a.deadline <= now + x.per_server && (a.deadline == now + x.per_server
                || a.deadline == lane.table.slots[i].deadline))
            &&& !(resend && now >= lane.table.slots[i].deadline) ==> t.due is Nothing && s.phase
                == lane.table.slots[i].phase
        }),
        out_of_servers(true) == Cause::Failed(RecurseError::NoResponse),
        out_of_servers(false) == Cause::Failed(RecurseError::NoReachableNs),
{
}

/// What validation is to look at: an alias by its owner and type, a response by what was
/// searched for.
pub proof fn law_what_validation_looks_at(s: SlotView)
    ensures
        match s.phase {
            PhaseView::JudgingAlias(a, _) => question_to_judge(s) == Some(
                (a.owner, a.atype, true),
            ),
            PhaseView::Judging(h) => question_to_judge(s) == Some(
                (s.session->0.qname, s.session->0.qtype, h.positive),
            ),
            _ => question_to_judge(s) is None,
        },
{
}

/// The searches that read replies are exactly those that are searching.
pub proof fn law_which_searches_read_replies(t: TableView<SlotView>, n: nat, i: usize)
    requires
        n <= usize::MAX,
    ensures
        searching_below(t, n).contains(i) <==> i < n && t.has(i as int) && t.slots[i as int].phase
            is Searching,
    decreases n,
{
    if n > 0 {
        let m = (n - 1) as nat;
        law_which_searches_read_replies(t, m, i);
        let rest = searching_below(t, m);
        let all = searching_below(t, n);
        if rest.contains(i) {
            let k = choose|k: int| 0 <= k < rest.len() && rest[k] == i;
            assert(all[k] == i);
        }
        if t.has(n - 1) && t.slots[n - 1].phase is Searching {
            assert(all[rest.len() as int] == (n - 1) as usize);
            if all.contains(i) && i != (n - 1) as usize {
                let k = choose|k: int| 0 <= k < all.len() && all[k] == i;
                assert(rest[k] == i);
            }
        }
    }
}

/// The first wait to end is that of a search that awaits a reply, and none ends sooner;
/// there is none exactly if no search awaits one.
pub proof fn law_the_first_wait_to_end(t: TableView<SlotView>, n: nat, i: int)
    ensures
        0 <= i < n && t.has(i) && t.slots[i].phase is Searching && t.slots[i].session is Some
            && t.slots[i].session->0.awaited is Some ==> (first_deadline(t, n) matches Some(d) && d
            <= t.slots[i].session->0.awaited->0.deadline),
        first_deadline(t, n) matches Some(d) ==> exists|k: int|
            0 <= k < n && #[trigger] t.has(k) && t.slots[k].phase is Searching
                && t.slots[k].session is Some && t.slots[k].session->0.awaited is Some
                && t.slots[k].session->0.awaited->0.deadline == d,
    decreases n,
{
    if n > 0 {
        let m = (n - 1) as nat;
        law_the_first_wait_to_end(t, m, i);
        if wait_end(t, n - 1) is Some {
            assert(t.has(n - 1));
        }
    }
}

/// Where a search starts that is not told where: in the deepest zone around its name that
/// is known, holds, and may be started from; else at the root.
pub proof fn law_where_a_search_starts(r: Recursor, qname: Seq<Seq<u8>>, now_millis: u64)
    ensures
        match deepest_from(r.deleg_cache@, qname, qname.len() as int, now_millis).1 {
            Some(f) => {
                let zone = last_labels(qname, f.0);
                &&& r.start_ok(zone, false, now_millis) ==> chosen_start(r, qname, now_millis) == (
                    zone,
                    f.1,
                )
                &&& !r.start_ok(zone, false, now_millis) ==> chosen_start(r, qname, now_millis).0.len()
                    == 0 && chosen_start(r, qname, now_millis).1 == r.roots@
            },
            None => chosen_start(r, qname, now_millis).0.len() == 0 && chosen_start(
                r,
                qname,
                now_millis,
            ).1 == r.roots@,
        },
{
}

/// Keys are remembered exactly from a response to a search for keys that holds both keys
/// of the zone and signatures over them.
pub proof fn law_which_keys_are_remembered(
    r: Recursor,
    kind: KindView,
    end: SessionEndView,
    now_secs: u32,
    now_millis: u64,
)
    ensures
        match (kind, end) {
            (KindView::Dnskey { zone, .. }, SessionEndView::Done(m)) => {
                let k = keys_in(m, zone);
                &&& k.records.len() > 0 && k.signatures.len() > 0 ==> remembered_keys(
                    r,
                    kind,
                    end,
                    now_secs,
                    now_millis,
                ) == r.keys_stored(fold_case(zone), k, keys_ttl(m, zone, now_secs), now_millis)
                &&& k.records.len() == 0 || k.signatures.len() == 0 ==> remembered_keys(
                    r,
                    kind,
                    end,
                    now_secs,
                    now_millis,
                ) == r.dnskey_cache@
            },
            _ => remembered_keys(r, kind, end, now_secs, now_millis) == r.dnskey_cache@,
        },
{
    reveal(remembered_keys);
}

/// A search that goes on sends its next query, and changes nothing else yet.
pub proof fn law_a_search_that_goes_on_sends(
    before: Recursor,
    after: Recursor,
    cfg: ReactorConfig,
    lane: LaneView,
    i: usize,
    now: u64,
    now_secs: u32,
    now_millis: u64,
    lane_after: LaneView,
    out: Seq<CompletionView>,
    out_after: Seq<CompletionView>,
    due: Due,
)
    requires
        went_on(
            before,
            after,
            cfg,
            lane,
            i,
            None,
            now,
            now_secs,
            now_millis,
            lane_after,
            out,
            out_after,
            due,
        ),
    ensures
        due == Due::Send(i),
        lane_after == lane,
        out_after == out,
        after == before,
{
}

} // verus!
