//! A client's question from beginning to end: a walk down the zones, its
//! validation, and the same again for every alias on the way. Walks and
//! validations are done outside; this is what happens between them.

use vstd::prelude::*;

use crate::addr::IpAddr;
use crate::chain::{
    chain_ips, chain_names, combined, law_combine_keeps_the_worst, NsContext, SecurityStatus,
    ZoneStep, ZoneStepView,
};
use crate::message::{
    Header, Message, MessageView, Question, QuestionView, Record, RecordView, RCODE_SERVFAIL,
};
use crate::name::Name;
use crate::query::{counted, ValidationCounter};
use crate::recursor::{Budget, RecurseError, Recursor};
use crate::resolve::{
    answer_step, answer_step_of, as_response, deliver, depth_error, finish_inner, held_back,
    inner_step, inner_step_of, judged, merge_tail, merged, terminal_answer, AnswerStep,
    AnswerStepView, InnerStep, InnerStepView,
};
use crate::response::sanitized;
use crate::seqs::{lemma_views_push, views};

verus! {

/// An alias that was followed: its records, the question it was found for, and
/// what validation said of it.
pub struct Hop {
    pub records: Vec<Record>,
    pub questions: Vec<Question>,
    pub status: SecurityStatus,
}

pub struct HopView {
    pub records: Seq<RecordView>,
    pub questions: Seq<QuestionView>,
    pub status: SecurityStatus,
}

impl View for Hop {
    type V = HopView;

    open spec fn view(&self) -> HopView {
        HopView {
            records: views(self.records@),
            questions: views(self.questions@),
            status: self.status,
        }
    }
}

/// An alias that is about to be followed.
pub struct AliasAhead {
    pub target: Name,
    pub owner: Name,
    pub atype: u16,
    pub records: Vec<Record>,
    pub cname_depth: usize,
    pub dname_depth: usize,
}

pub struct AliasAheadView {
    pub target: Seq<Seq<u8>>,
    pub owner: Seq<Seq<u8>>,
    pub atype: u16,
    pub records: Seq<RecordView>,
    pub cname_depth: int,
    pub dname_depth: int,
}

impl View for AliasAhead {
    type V = AliasAheadView;

    open spec fn view(&self) -> AliasAheadView {
        AliasAheadView {
            target: self.target@,
            owner: self.owner@,
            atype: self.atype,
            records: views(self.records@),
            cname_depth: self.cname_depth as int,
            dname_depth: self.dname_depth as int,
        }
    }
}

/// What a question waits for.
pub enum Stage {
    /// A walk for the current name.
    Walking,
    /// The validation of the response that ends the search, as an answer
    /// (`positive`) or a denial.
    JudgingEnd { response: Message, chain: Vec<ZoneStep>, positive: bool },
    /// The validation of the alias records in the response.
    JudgingAlias { response: Message, chain: Vec<ZoneStep>, alias: AliasAhead },
    /// Nothing any more.
    Over(Result<Message, RecurseError>),
}

pub enum StageView {
    Walking,
    JudgingEnd { response: MessageView, chain: Seq<ZoneStepView>, positive: bool },
    JudgingAlias { response: MessageView, chain: Seq<ZoneStepView>, alias: AliasAheadView },
    Over(Result<MessageView, RecurseError>),
}

impl View for Stage {
    type V = StageView;

    open spec fn view(&self) -> StageView {
        match self {
            Stage::Walking => StageView::Walking,
            Stage::JudgingEnd { response, chain, positive } => StageView::JudgingEnd {
                response: response@,
                chain: views(chain@),
                positive: *positive,
            },
            Stage::JudgingAlias { response, chain, alias } => StageView::JudgingAlias {
                response: response@,
                chain: views(chain@),
                alias: alias@,
            },
            Stage::Over(Ok(m)) => StageView::Over(Ok(m@)),
            Stage::Over(Err(e)) => StageView::Over(Err(*e)),
        }
    }
}

/// A question that is being worked on.
pub struct Resolution {
    pub qname: Name,
    pub qtype: u16,
    /// It was not asked by a client, but comes up within another question.
    pub nested: bool,
    pub honor_cd: bool,
    /// What all walks of the question may still use up.
    pub budget: Budget,
    /// The name of the walk at hand.
    pub current: Name,
    pub hops: Vec<Hop>,
    pub cname_depth: usize,
    pub dname_depth: usize,
    /// The name servers along the first walk.
    pub ns: NsContext,
    pub stage: Stage,
}

pub struct ResolutionView {
    pub qname: Seq<Seq<u8>>,
    pub qtype: u16,
    pub nested: bool,
    pub honor_cd: bool,
    pub budget: Budget,
    pub current: Seq<Seq<u8>>,
    pub hops: Seq<HopView>,
    pub cname_depth: int,
    pub dname_depth: int,
    pub ns_names: Seq<Seq<Seq<u8>>>,
    pub ns_ips: Seq<IpAddr>,
    pub stage: StageView,
}

impl View for Resolution {
    type V = ResolutionView;

    open spec fn view(&self) -> ResolutionView {
        ResolutionView {
            qname: self.qname@,
            qtype: self.qtype,
            nested: self.nested,
            honor_cd: self.honor_cd,
            budget: self.budget,
            current: self.current@,
            hops: views(self.hops@),
            cname_depth: self.cname_depth as int,
            dname_depth: self.dname_depth as int,
            ns_names: views(self.ns.names@),
            ns_ips: self.ns.ips@,
            stage: self.stage@,
        }
    }
}

/// What has to be done outside.
pub enum Work {
    /// Walk down to this name.
    Walk(Name),
    /// Validate the answer records of this name and type.
    ValidateAnswer(Name, u16),
    /// Validate the denial of this name and type.
    ValidateDenial(Name, u16),
    /// Nothing.
    Nothing,
}

pub enum WorkView {
    Walk(Seq<Seq<u8>>),
    ValidateAnswer(Seq<Seq<u8>>, u16),
    ValidateDenial(Seq<Seq<u8>>, u16),
    Nothing,
}

impl View for Work {
    type V = WorkView;

    open spec fn view(&self) -> WorkView {
        match self {
            Work::Walk(n) => WorkView::Walk(n@),
            Work::ValidateAnswer(n, t) => WorkView::ValidateAnswer(n@, *t),
            Work::ValidateDenial(n, t) => WorkView::ValidateDenial(n@, *t),
            Work::Nothing => WorkView::Nothing,
        }
    }
}

/// The aliases that were followed are as many as their depths say, and the depths
/// are allowed.
pub open spec fn resolution_valid(r: Recursor, s: ResolutionView) -> bool {
    &&& !(s.stage is Over) ==> s.hops.len() == s.cname_depth + s.dname_depth
    &&& 0 <= s.cname_depth <= r.max_cnames
    &&& 0 <= s.dname_depth <= r.max_dnames
    &&& s.stage matches StageView::JudgingAlias { alias, .. } ==> {
        &&& alias.cname_depth + alias.dname_depth == s.hops.len() + 1
        &&& s.cname_depth <= alias.cname_depth <= usize::MAX
        &&& s.dname_depth <= alias.dname_depth <= usize::MAX
    }
}

/// The zone that a response at the end of a chain came from.
pub open spec fn leaf_of(chain: Seq<ZoneStepView>) -> Option<Seq<Seq<u8>>> {
    if chain.len() == 0 {
        None
    } else {
        Some(chain.last().zone)
    }
}

/// A question at its beginning.
pub open spec fn at_beginning(
    qname: Seq<Seq<u8>>,
    qtype: u16,
    nested: bool,
    honor_cd: bool,
    budget: Budget,
) -> ResolutionView {
    ResolutionView {
        qname,
        qtype,
        nested,
        honor_cd,
        budget,
        current: qname,
        hops: Seq::empty(),
        cname_depth: 0,
        dname_depth: 0,
        ns_names: Seq::empty(),
        ns_ips: Seq::empty(),
        stage: StageView::Walking,
    }
}

/// A client's question at its beginning: without a root there is no way to go.
pub open spec fn question_started(
    r: Recursor,
    qname: Seq<Seq<u8>>,
    qtype: u16,
    honor_cd: bool,
    now: u64,
) -> ResolutionView {
    let s = at_beginning(qname, qtype, false, honor_cd, r.fresh_budget(now));
    if r.roots@.len() == 0 {
        ResolutionView { stage: StageView::Over(Err(RecurseError::NoRoots)), ..s }
    } else {
        s
    }
}

/// What is handed to the client: it was found, not owned.
pub open spec fn delivered(m: MessageView) -> MessageView {
    MessageView { header: Header { authoritative: false, ..m.header }, ..m }
}

/// The response at the end of the aliases with their records before it, and the
/// worst that validation said of any part.
pub open spec fn unwound(
    hops: Seq<HopView>,
    tail: MessageView,
    status: SecurityStatus,
) -> (MessageView, SecurityStatus)
    decreases hops.len(),
{
    if hops.len() == 0 {
        (tail, status)
    } else {
        unwound(
            hops.drop_last(),
            merged(hops.last().records, hops.last().questions, tail),
            combined(hops.last().status, status),
        )
    }
}

/// The records of the aliases in the order in which they were followed.
pub open spec fn records_of(hops: Seq<HopView>) -> Seq<RecordView>
    decreases hops.len(),
{
    if hops.len() == 0 {
        Seq::empty()
    } else {
        records_of(hops.drop_last()) + hops.last().records
    }
}

/// The worst that validation said of any alias.
pub open spec fn status_of(hops: Seq<HopView>) -> SecurityStatus
    decreases hops.len(),
{
    if hops.len() == 0 {
        SecurityStatus::Secure
    } else {
        combined(status_of(hops.drop_last()), hops.last().status)
    }
}

pub proof fn lemma_unwound(hops: Seq<HopView>, tail: MessageView, status: SecurityStatus)
    ensures
        ({
            let u = unwound(hops, tail, status);
            &&& u.0 == MessageView {
                answers: records_of(hops) + tail.answers,
                questions: if hops.len() == 0 {
                    tail.questions
                } else {
                    hops[0].questions
                },
                ..tail
            }
            &&& u.1 == combined(status_of(hops), status)
        }),
    decreases hops.len(),
{
    if hops.len() == 0 {
        assert(records_of(hops) + tail.answers =~= tail.answers);
    } else {
        let last = hops.last();
        let rest = hops.drop_last();
        lemma_unwound(
            rest,
            merged(last.records, last.questions, tail),
            combined(last.status, status),
        );
        assert(records_of(rest) + (last.records + tail.answers) =~= records_of(hops)
            + tail.answers);
        assert(rest.len() > 0 ==> rest[0] == hops[0]);
        law_combine_keeps_the_worst(status_of(rest), last.status, status);
    }
}

/// The outcome as far as it counts: none where nothing is validated.
pub open spec fn counting(r: Recursor, s: ResolutionView, status: SecurityStatus) -> Option<
    SecurityStatus,
> {
    if r.validates(s.honor_cd) {
        Some(status)
    } else {
        None
    }
}

/// The question without an alias once its response was judged: the answer, and
/// whether it was held back.
pub open spec fn ended_directly(
    r: Recursor,
    s: ResolutionView,
    response: MessageView,
    leaf: Option<Seq<Seq<u8>>>,
    positive: bool,
    status: SecurityStatus,
) -> (ResolutionView, bool) {
    let c = counting(r, s, status);
    let out = terminal_answer(r, s.qname, s.qtype, response, positive, c, s.honor_cd, leaf);
    (
        ResolutionView { stage: StageView::Over(Ok(delivered(out))), ..s },
        held_back(r, c, s.honor_cd),
    )
}

/// What the end of the aliases gives, without what nobody vouches for. A denial
/// keeps the proofs of the zone that it came from.
pub open spec fn alias_tail(
    s: ResolutionView,
    response: MessageView,
    leaf: Option<Seq<Seq<u8>>>,
    positive: bool,
) -> MessageView {
    sanitized(
        response,
        s.current,
        s.qtype,
        positive,
        if positive {
            None
        } else {
            leaf
        },
    )
}

/// A question within another one once its last response was judged. What
/// validation said of it is left to the other one.
pub open spec fn ended_within(
    s: ResolutionView,
    tail: MessageView,
    status: SecurityStatus,
) -> ResolutionView {
    ResolutionView {
        hops: Seq::empty(),
        stage: StageView::Over(Ok(unwound(s.hops, tail, status).0)),
        ..s
    }
}

/// The question behind aliases once its last response was judged.
pub open spec fn ended_behind_aliases(
    r: Recursor,
    s: ResolutionView,
    tail: MessageView,
    status: SecurityStatus,
) -> (ResolutionView, bool) {
    let u = unwound(s.hops, tail, status);
    let c = counting(r, s, u.1);
    (
        ResolutionView {
            hops: Seq::empty(),
            stage: StageView::Over(Ok(delivered(as_response(judged(r, u.0, c, s.honor_cd))))),
            ..s
        },
        held_back(r, c, s.honor_cd),
    )
}

/// The question once its last response was judged: the answer, and whether it was
/// held back.
pub open spec fn ended(
    r: Recursor,
    s: ResolutionView,
    response: MessageView,
    leaf: Option<Seq<Seq<u8>>>,
    positive: bool,
    status: SecurityStatus,
) -> (ResolutionView, bool) {
    if s.nested {
        (ended_within(s, alias_tail(s, response, leaf, positive), status), false)
    } else if s.hops.len() == 0 {
        ended_directly(r, s, response, leaf, positive, status)
    } else {
        ended_behind_aliases(r, s, alias_tail(s, response, leaf, positive), status)
    }
}

/// The question once an alias was judged: its target is next, where the depth is
/// allowed.
pub open spec fn hopped(
    r: Recursor,
    s: ResolutionView,
    response: MessageView,
    alias: AliasAheadView,
    status: SecurityStatus,
) -> ResolutionView {
    match depth_error(r, alias.cname_depth, alias.dname_depth) {
        Some(e) => ResolutionView { stage: StageView::Over(Err(e)), ..s },
        None => ResolutionView {
            current: alias.target,
            hops: s.hops.push(
                HopView { records: alias.records, questions: response.questions, status },
            ),
            cname_depth: alias.cname_depth,
            dname_depth: alias.dname_depth,
            stage: StageView::Walking,
            ..s
        },
    }
}

/// Where a response leads: to an answer at once, to the end, or to an alias.
pub enum Turn {
    Answer(MessageView),
    End { positive: bool },
    Alias(AliasAheadView),
}

pub open spec fn turn_of(s: ResolutionView, m: MessageView) -> Turn {
    if s.hops.len() == 0 && !s.nested {
        match answer_step_of(m, s.current, s.qtype) {
            AnswerStepView::Done(out) => Turn::Answer(out),
            AnswerStepView::Terminal { positive, .. } => Turn::End { positive },
            AnswerStepView::Follow { hop, cname_depth, dname_depth, .. } => Turn::Alias(
                AliasAheadView {
                    target: hop.target,
                    owner: hop.owner,
                    atype: hop.atype,
                    records: hop.records,
                    cname_depth,
                    dname_depth,
                },
            ),
        }
    } else {
        match inner_step_of(m, s.current, s.qtype, s.cname_depth, s.dname_depth) {
            InnerStepView::Terminal { positive } => Turn::End { positive },
            InnerStepView::Follow { target, owner, atype, records, cname_depth, dname_depth } => {
                Turn::Alias(
                    AliasAheadView { target, owner, atype, records, cname_depth, dname_depth },
                )
            },
        }
    }
}

/// The question after a walk. The name servers along the first one are kept.
pub open spec fn walk_done(
    r: Recursor,
    s: ResolutionView,
    outcome: Result<(MessageView, Seq<ZoneStepView>), RecurseError>,
) -> (ResolutionView, bool) {
    match outcome {
        Err(e) => (ResolutionView { stage: StageView::Over(Err(e)), ..s }, false),
        Ok((m, chain)) => {
            let t = if s.hops.len() == 0 && !s.nested {
                ResolutionView { ns_names: chain_names(chain), ns_ips: chain_ips(chain), ..s }
            } else {
                s
            };
            match turn_of(s, m) {
                Turn::Answer(out) => (
                    ResolutionView { stage: StageView::Over(Ok(delivered(out))), ..t },
                    false,
                ),
                Turn::End { positive } => if r.validates(s.honor_cd) {
                    (
                        ResolutionView {
                            stage: StageView::JudgingEnd { response: m, chain, positive },
                            ..t
                        },
                        false,
                    )
                } else {
                    ended(r, t, m, leaf_of(chain), positive, SecurityStatus::Insecure)
                },
                Turn::Alias(alias) => if r.validates(s.honor_cd) {
                    (
                        ResolutionView {
                            stage: StageView::JudgingAlias { response: m, chain, alias },
                            ..t
                        },
                        false,
                    )
                } else {
                    (hopped(r, t, m, alias, SecurityStatus::Insecure), false)
                },
            }
        },
    }
}

/// The question after a validation.
pub open spec fn validation_done(
    r: Recursor,
    s: ResolutionView,
    status: SecurityStatus,
) -> (ResolutionView, bool) {
    match s.stage {
        StageView::JudgingEnd { response, chain, positive } => ended(
            r,
            s,
            response,
            leaf_of(chain),
            positive,
            status,
        ),
        StageView::JudgingAlias { response, chain, alias } => (
            hopped(r, s, response, alias, status),
            false,
        ),
        _ => (s, false),
    }
}

pub open spec fn work_of(s: ResolutionView) -> WorkView {
    match s.stage {
        StageView::Walking => WorkView::Walk(s.current),
        StageView::JudgingEnd { positive, .. } => if positive {
            WorkView::ValidateAnswer(s.current, s.qtype)
        } else {
            WorkView::ValidateDenial(s.current, s.qtype)
        },
        StageView::JudgingAlias { alias, .. } => WorkView::ValidateAnswer(
            alias.owner,
            alias.atype,
        ),
        StageView::Over(_) => WorkView::Nothing,
    }
}

pub open spec fn walk_view(outcome: Result<(Message, Vec<ZoneStep>), RecurseError>) -> Result<
    (MessageView, Seq<ZoneStepView>),
    RecurseError,
> {
    match outcome {
        Ok((m, c)) => Ok((m@, views(c@))),
        Err(e) => Err(e),
    }
}

pub open spec fn tally(before: u64, held: bool) -> u64 {
    if held {
        counted(before)
    } else {
        before
    }
}

/// Where a response led.
enum TurnTaken {
    Answer(Message),
    End { response: Message, positive: bool },
    Alias { response: Message, alias: AliasAhead },
}

/// Puts the records of the aliases before the response at their end.
fn unwind(hops: Vec<Hop>, tail: Message, status: SecurityStatus) -> (r: (Message, SecurityStatus))
    ensures
        (r.0@, r.1) == unwound(views(hops@), tail@, status),
{
    let mut hops = hops;
    let mut tail = tail;
    let mut status = status;
    let ghost goal = unwound(views(hops@), tail@, status);
    while hops.len() > 0
        invariant
            unwound(views(hops@), tail@, status) == goal,
        decreases hops.len(),
    {
        let ghost before = hops@;
        match hops.pop() {
            None => {},
            Some(h) => {
                assert(views(before).last() == h@);
                assert(views(before).drop_last() =~= views(hops@));
                let Hop { records, questions, status: s } = h;
                tail = merge_tail(records, &questions, tail);
                status = s.combine(status);
            },
        }
    }
    (tail, status)
}

impl Resolution {
    fn begin(qname: Name, qtype: u16, nested: bool, honor_cd: bool, budget: Budget) -> (s: Self)
        ensures
            s@ == at_beginning(qname@, qtype, nested, honor_cd, budget),
    {
        let current = qname.clone();
        let hops: Vec<Hop> = Vec::new();
        let names: Vec<Name> = Vec::new();
        let ips: Vec<IpAddr> = Vec::new();
        assert(views(hops@) =~= Seq::<HopView>::empty());
        assert(views(names@) =~= Seq::<Seq<Seq<u8>>>::empty());
        Resolution {
            qname,
            qtype,
            nested,
            honor_cd,
            budget,
            current,
            hops,
            cname_depth: 0,
            dname_depth: 0,
            ns: NsContext { names, ips },
            stage: Stage::Walking,
        }
    }

    /// Begins a client's question.
    pub fn start(r: &Recursor, qname: Name, qtype: u16, honor_cd: bool, now: u64) -> (s: Self)
        ensures
            s@ == question_started(*r, qname@, qtype, honor_cd, now),
            resolution_valid(*r, s@),
    {
        let mut s = Self::begin(qname, qtype, false, honor_cd, r.new_budget(now));
        if let Err(e) = r.check_roots() {
            s.stage = Stage::Over(Err(e));
        }
        s
    }

    /// Begins a question within another one, on what is left of its budget.
    pub fn start_nested(
        r: &Recursor,
        qname: Name,
        qtype: u16,
        honor_cd: bool,
        budget: Budget,
    ) -> (s: Self)
        ensures
            s@ == at_beginning(qname@, qtype, true, honor_cd, budget),
            resolution_valid(*r, s@),
    {
        Self::begin(qname, qtype, true, honor_cd, budget)
    }

    /// What has to be done next. What a validation looks at stands in the stage.
    pub fn work(&self) -> (w: Work)
        ensures
            w@ == work_of(self@),
    {
        match &self.stage {
            Stage::Walking => Work::Walk(self.current.clone()),
            Stage::JudgingEnd { positive, .. } => if *positive {
                Work::ValidateAnswer(self.current.clone(), self.qtype)
            } else {
                Work::ValidateDenial(self.current.clone(), self.qtype)
            },
            Stage::JudgingAlias { alias, .. } => Work::ValidateAnswer(
                alias.owner.clone(),
                alias.atype,
            ),
            Stage::Over(_) => Work::Nothing,
        }
    }

    fn turn(&self, response: Message) -> (t: TurnTaken)
        requires
            self.cname_depth < usize::MAX,
            self.dname_depth < usize::MAX,
            self.hops@.len() == 0 ==> self.cname_depth == 0 && self.dname_depth == 0,
        ensures
            match turn_of(self@, response@) {
                Turn::Answer(out) => t matches TurnTaken::Answer(m) && m@ == out,
                Turn::End { positive } => {
                    &&& t matches TurnTaken::End { response: m, positive: p }
                    &&& m@ == response@
                    &&& p == positive
                },
                Turn::Alias(a) => {
                    &&& t matches TurnTaken::Alias { response: m, alias: x }
                    &&& m@ == response@
                    &&& x@ == a
                },
            },
            t matches TurnTaken::Alias { alias: x, .. } ==> {
                &&& x.cname_depth + x.dname_depth == self.cname_depth + self.dname_depth + 1
                &&& self.cname_depth <= x.cname_depth
                &&& self.dname_depth <= x.dname_depth
            },
    {
        if self.hops.len() == 0 && !self.nested {
            match answer_step(response, &self.current, self.qtype) {
                AnswerStep::Done(out) => TurnTaken::Answer(out),
                AnswerStep::Terminal { response, positive } => TurnTaken::End { response, positive },
                AnswerStep::Follow { hop, response, cname_depth, dname_depth } => TurnTaken::Alias {
                    response,
                    alias: AliasAhead {
                        target: hop.target,
                        owner: hop.owner,
                        atype: hop.atype,
                        records: hop.records,
                        cname_depth,
                        dname_depth,
                    },
                },
            }
        } else {
            match inner_step(
                &response,
                &self.current,
                self.qtype,
                self.cname_depth,
                self.dname_depth,
            ) {
                InnerStep::Terminal { positive } => TurnTaken::End { response, positive },
                InnerStep::Follow { target, owner, atype, records, cname_depth, dname_depth } => {
                    TurnTaken::Alias {
                        response,
                        alias: AliasAhead {
                            target,
                            owner,
                            atype,
                            records,
                            cname_depth,
                            dname_depth,
                        },
                    }
                },
            }
        }
    }

    /// Takes in what a walk came to: the response and the zones on the way, or why
    /// it failed.
    pub fn walked(
        self,
        r: &Recursor,
        outcome: Result<(Message, Vec<ZoneStep>), RecurseError>,
        counter: &mut ValidationCounter,
    ) -> (s: Self)
        requires
            resolution_valid(*r, self@),
            self.stage is Walking,
            r.max_cnames < usize::MAX,
            r.max_dnames < usize::MAX,
        ensures
            s@ == walk_done(*r, self@, walk_view(outcome)).0,
            final(counter).bogus_total == tally(
                old(counter).bogus_total,
                walk_done(*r, self@, walk_view(outcome)).1,
            ),
            resolution_valid(*r, s@),
    {
        let mut s = self;
        let (response, chain) = match outcome {
            Err(e) => {
                s.stage = Stage::Over(Err(e));
                return s;
            },
            Ok(x) => x,
        };
        let turn = s.turn(response);
        if s.hops.len() == 0 && !s.nested {
            s.ns = NsContext::from_chain(&chain);
        }
        let validating: bool = r.validating(s.honor_cd);
        match turn {
            TurnTaken::Answer(out) => {
                s.stage = Stage::Over(Ok(deliver(out)));
                s
            },
            TurnTaken::End { response, positive } => {
                if validating {
                    s.stage = Stage::JudgingEnd { response, chain, positive };
                    s
                } else {
                    s.end(r, response, &chain, positive, SecurityStatus::Insecure, counter)
                }
            },
            TurnTaken::Alias { response, alias } => {
                if validating {
                    s.stage = Stage::JudgingAlias { response, chain, alias };
                    s
                } else {
                    s.hop(r, response, alias, SecurityStatus::Insecure)
                }
            },
        }
    }

    /// Takes in what a validation said.
    pub fn validated(
        self,
        r: &Recursor,
        status: SecurityStatus,
        counter: &mut ValidationCounter,
    ) -> (s: Self)
        requires
            resolution_valid(*r, self@),
            self.stage is JudgingEnd || self.stage is JudgingAlias,
        ensures
            s@ == validation_done(*r, self@, status).0,
            final(counter).bogus_total == tally(
                old(counter).bogus_total,
                validation_done(*r, self@, status).1,
            ),
            resolution_valid(*r, s@),
    {
        let mut s = self;
        let mut stage = Stage::Walking;
        std::mem::swap(&mut stage, &mut s.stage);
        match stage {
            Stage::JudgingEnd { response, chain, positive } => s.end(
                r,
                response,
                &chain,
                positive,
                status,
                counter,
            ),
            Stage::JudgingAlias { response, chain: _, alias } => s.hop(r, response, alias, status),
            other => {
                s.stage = other;
                s
            },
        }
    }

    fn hop(self, r: &Recursor, response: Message, alias: AliasAhead, status: SecurityStatus) -> (s:
        Self)
        requires
            resolution_valid(*r, self@),
            alias.cname_depth + alias.dname_depth == self.hops@.len() + 1,
        ensures
            s@ == hopped(*r, self@, response@, alias@, status),
            resolution_valid(*r, s@),
    {
        let mut s = self;
        match r.admit_depth(alias.cname_depth, alias.dname_depth) {
            Err(e) => {
                s.stage = Stage::Over(Err(e));
                s
            },
            Ok(()) => {
                let AliasAhead { target, owner: _, atype: _, records, cname_depth, dname_depth } =
                    alias;
                let Message { header: _, questions, answers: _, authorities: _, additionals: _ } =
                    response;
                let hop = Hop { records, questions, status };
                proof {
                    lemma_views_push(s.hops@, hop);
                }
                s.hops.push(hop);
                s.current = target;
                s.cname_depth = cname_depth;
                s.dname_depth = dname_depth;
                s.stage = Stage::Walking;
                s
            },
        }
    }

    fn end(
        self,
        r: &Recursor,
        response: Message,
        chain: &Vec<ZoneStep>,
        positive: bool,
        status: SecurityStatus,
        counter: &mut ValidationCounter,
    ) -> (s: Self)
        requires
            resolution_valid(*r, self@),
        ensures
            s@ == ended(*r, self@, response@, leaf_of(views(chain@)), positive, status).0,
            final(counter).bogus_total == tally(
                old(counter).bogus_total,
                ended(*r, self@, response@, leaf_of(views(chain@)), positive, status).1,
            ),
            resolution_valid(*r, s@),
    {
        let mut s = self;
        let leaf: Option<&Name> = if chain.len() == 0 {
            None
        } else {
            assert(views(chain@).last() == chain@[chain@.len() - 1]@);
            Some(&chain[chain.len() - 1].zone)
        };
        if s.nested {
            let tail = finish_inner(response, &s.current, s.qtype, positive, leaf);
            s.end_within(tail, status)
        } else if s.hops.len() == 0 {
            let counts = s.counting(r, status);
            let out = r.finish_terminal(
                response,
                &s.qname,
                s.qtype,
                positive,
                counts,
                s.honor_cd,
                leaf,
                counter,
            );
            s.stage = Stage::Over(Ok(deliver(out)));
            s
        } else {
            let tail = finish_inner(response, &s.current, s.qtype, positive, leaf);
            s.end_behind_aliases(r, tail, status, counter)
        }
    }

    fn counting(&self, r: &Recursor, status: SecurityStatus) -> (c: Option<SecurityStatus>)
        ensures
            c == counting(*r, self@, status),
    {
        if r.validating(self.honor_cd) {
            Some(status)
        } else {
            None
        }
    }

    fn end_within(self, tail: Message, status: SecurityStatus) -> (s: Self)
        ensures
            s@ == ended_within(self@, tail@, status),
    {
        let mut s = self;
        let mut hops: Vec<Hop> = Vec::new();
        std::mem::swap(&mut hops, &mut s.hops);
        assert(views(s.hops@) =~= Seq::<HopView>::empty());
        let (all, _worst) = unwind(hops, tail, status);
        s.stage = Stage::Over(Ok(all));
        s
    }

    fn end_behind_aliases(
        self,
        r: &Recursor,
        tail: Message,
        status: SecurityStatus,
        counter: &mut ValidationCounter,
    ) -> (s: Self)
        ensures
            s@ == ended_behind_aliases(*r, self@, tail@, status).0,
            final(counter).bogus_total == tally(
                old(counter).bogus_total,
                ended_behind_aliases(*r, self@, tail@, status).1,
            ),
    {
        let mut s = self;
        let mut hops: Vec<Hop> = Vec::new();
        std::mem::swap(&mut hops, &mut s.hops);
        assert(views(s.hops@) =~= Seq::<HopView>::empty());
        let (all, worst) = unwind(hops, tail, status);
        let counts = s.counting(r, worst);
        let mut out = r.judge_answer(all, counts, s.honor_cd, counter);
        out.header.response = true;
        out.header.recursion_available = true;
        s.stage = Stage::Over(Ok(deliver(out)));
        s
    }
}

impl Recursor {
    /// Begins a client's question.
    pub fn resolve(&self, qname: &Name, qtype: u16, now: u64) -> (s: Resolution)
        ensures
            s@ == question_started(*self, qname@, qtype, false, now),
            resolution_valid(*self, s@),
    {
        self.resolve_with_ns(qname, qtype, now)
    }

    /// Begins a client's question. The name servers along its first walk are kept.
    pub fn resolve_with_ns(&self, qname: &Name, qtype: u16, now: u64) -> (s: Resolution)
        ensures
            s@ == question_started(*self, qname@, qtype, false, now),
            resolution_valid(*self, s@),
    {
        self.resolve_with_ns_cd(qname, qtype, false, now)
    }

    /// Begins the question of a client that asked, or did not ask (`cd`), for unchecked
    /// data. The wish counts where the resolver does not ignore it.
    pub fn resolve_with_ns_cd(&self, qname: &Name, qtype: u16, cd: bool, now: u64) -> (s: Resolution)
        ensures
            s@ == question_started(*self, qname@, qtype, cd && !self.ignore_cd, now),
            resolution_valid(*self, s@),
    {
        Resolution::start(self, qname.clone(), qtype, self.honors_cd(cd), now)
    }
}

impl Resolution {
    /// The answer with the name servers along the first walk, or why there is none;
    /// nothing while the question is worked on.
    pub fn outcome(self) -> (r: Option<Result<(Message, NsContext), RecurseError>>)
        ensures
            match self@.stage {
                StageView::Over(Ok(m)) => {
                    &&& r matches Some(Ok(x))
                    &&& x.0@ == m
                    &&& views(x.1.names@) == self@.ns_names
                    &&& x.1.ips@ == self@.ns_ips
                },
                StageView::Over(Err(e)) => r == Some(
                    Err::<(Message, NsContext), RecurseError>(e),
                ),
                _ => r is None,
            },
    {
        match self.stage {
            Stage::Over(Ok(m)) => Some(Ok((m, self.ns))),
            Stage::Over(Err(e)) => Some(Err(e)),
            _ => None,
        }
    }
}

/// An alias chain cannot go on for ever: the walks of one question are at most one
/// more than the CNAME and DNAME steps that are allowed.
pub proof fn law_alias_chains_are_bounded(r: Recursor, s: ResolutionView)
    requires
        resolution_valid(r, s),
    ensures
        !(s.stage is Over) ==> s.hops.len() <= r.max_cnames + r.max_dnames,
        forall|outcome: Result<(MessageView, Seq<ZoneStepView>), RecurseError>|
            s.stage is Walking ==> {
                let t = #[trigger] walk_done(r, s, outcome).0;
                t.stage is Walking ==> t.hops.len() == s.hops.len() + 1
            },
        forall|status: SecurityStatus|
            s.stage is JudgingAlias ==> {
                let t = #[trigger] validation_done(r, s, status).0;
                t.stage is Walking ==> t.hops.len() == s.hops.len() + 1
            },
{
}

/// One part that is not secure keeps the whole from being secure.
pub proof fn law_the_worst_part_counts(
    hops: Seq<HopView>,
    tail: MessageView,
    status: SecurityStatus,
)
    ensures
        unwound(hops, tail, status).1 is Secure <==> status is Secure && forall|i: int|
            0 <= i < hops.len() ==> (#[trigger] hops[i]).status is Secure,
        unwound(hops, tail, status).1 is Bogus <==> status is Bogus || exists|i: int|
            0 <= i < hops.len() && (#[trigger] hops[i]).status is Bogus,
    decreases hops.len(),
{
    if hops.len() > 0 {
        let n = hops.len() - 1;
        let rest = hops.drop_last();
        law_the_worst_part_counts(
            rest,
            merged(hops.last().records, hops.last().questions, tail),
            combined(hops.last().status, status),
        );
        assert(forall|i: int| 0 <= i < n ==> rest[i] == hops[i]);
        assert(hops.last() == hops[n]);
        assert forall|i: int| 0 <= i < hops.len() && (#[trigger] hops[i]).status is Bogus
            && i < n implies exists|j: int|
            0 <= j < rest.len() && (#[trigger] rest[j]).status is Bogus by {
            assert(rest[i].status is Bogus);
        }
        assert forall|j: int| 0 <= j < rest.len() && (#[trigger] rest[j]).status is Bogus implies exists|
            i: int,
        |
            0 <= i < hops.len() && (#[trigger] hops[i]).status is Bogus by {
            assert(hops[j].status is Bogus);
        }
        assert forall|j: int| 0 <= j < rest.len() implies (#[trigger] rest[j]).status == hops[j].status by {}
    }
}

/// A client who did not ask for unchecked data gets no data at all where any part
/// of it is bogus, be it an alias on the way or what the last one leads to.
pub proof fn law_a_bogus_part_withholds_the_whole(
    r: Recursor,
    s: ResolutionView,
    response: MessageView,
    leaf: Option<Seq<Seq<u8>>>,
    positive: bool,
    status: SecurityStatus,
)
    requires
        !s.nested,
        r.validates(s.honor_cd),
        !r.permissive,
        !s.honor_cd,
        status is Bogus || exists|i: int|
            0 <= i < s.hops.len() && (#[trigger] s.hops[i]).status is Bogus,
    ensures
        ({
            let t = ended(r, s, response, leaf, positive, status);
            &&& t.1
            &&& t.0.stage matches StageView::Over(Ok(m))
            &&& m.header.rcode == RCODE_SERVFAIL
            &&& !m.header.authentic_data
            &&& m.answers.len() == 0
            &&& m.authorities.len() == 0
        }),
{
    if s.hops.len() == 0 {
        crate::resolve::law_bogus_answers_are_withheld(
            r,
            s.qname,
            s.qtype,
            response,
            positive,
            status->Bogus_0,
            leaf,
        );
    } else {
        let tail = alias_tail(s, response, leaf, positive);
        law_the_worst_part_counts(s.hops, tail, status);
    }
}

/// A client is told that data is authentic only where every part of it is: each
/// alias on the way and what the last one leads to.
pub proof fn law_authentic_answers_are_secure_throughout(
    r: Recursor,
    s: ResolutionView,
    response: MessageView,
    leaf: Option<Seq<Seq<u8>>>,
    positive: bool,
    status: SecurityStatus,
)
    requires
        !s.nested,
    ensures
        ended(r, s, response, leaf, positive, status).0.stage matches StageView::Over(Ok(m))
            && m.header.authentic_data ==> r.validates(s.honor_cd) && status is Secure && forall|
            i: int,
        |
            0 <= i < s.hops.len() ==> (#[trigger] s.hops[i]).status is Secure,
{
    let tail = alias_tail(s, response, leaf, positive);
    law_the_worst_part_counts(s.hops, tail, status);
}

/// A question starts with its own name, nothing followed and nothing found, a walk ahead
/// of it; without a root server to start from it is over at once.
pub proof fn law_how_a_question_starts(
    r: Recursor,
    qname: Seq<Seq<u8>>,
    qtype: u16,
    honor_cd: bool,
    now: u64,
)
    ensures
        ({
            let s = question_started(r, qname, qtype, honor_cd, now);
            &&& s.qname == qname && s.qtype == qtype && s.current == qname
            &&& !s.nested && s.honor_cd == honor_cd && s.hops.len() == 0
            &&& s.cname_depth == 0 && s.dname_depth == 0
            &&& s.budget == r.fresh_budget(now)
            &&& r.roots@.len() > 0 ==> work_of(s) == WorkView::Walk(qname)
            &&& r.roots@.len() == 0 ==> s.stage == StageView::Over(Err(RecurseError::NoRoots))
                && work_of(s) is Nothing
        }),
{
}

/// What is due next: a walk for the present name, or the validation of what it led to,
/// under the name and type that it is about.
pub proof fn law_what_is_due_next(s: ResolutionView)
    ensures
        match s.stage {
            StageView::Walking => work_of(s) == WorkView::Walk(s.current),
            StageView::JudgingEnd { positive: true, .. } => work_of(s) == WorkView::ValidateAnswer(
                s.current,
                s.qtype,
            ),
            StageView::JudgingEnd { positive: false, .. } => work_of(s) == WorkView::ValidateDenial(
                s.current,
                s.qtype,
            ),
            StageView::JudgingAlias { alias, .. } => work_of(s) == WorkView::ValidateAnswer(
                alias.owner,
                alias.atype,
            ),
            StageView::Over(_) => work_of(s) is Nothing,
        },
{
}

/// A walk that failed fails the question with its error. One that led to an alias leads
/// on to the alias's target, after its validation where that is on; one that led to the
/// end leads to the answer, after its validation where that is on.
pub proof fn law_where_a_walk_leads(
    r: Recursor,
    s: ResolutionView,
    m: MessageView,
    chain: Seq<ZoneStepView>,
    e: RecurseError,
)
    requires
        s.stage is Walking,
    ensures
        walk_done(r, s, Err(e)).0.stage == StageView::Over(Err(e)),
        !walk_done(r, s, Err(e)).1,
        ({
            let t = walk_done(r, s, Ok((m, chain)));
            let v = r.trust_anchors@.len() > 0 && !s.honor_cd;
            &&& t.0.qname == s.qname && t.0.qtype == s.qtype && t.0.nested == s.nested
            &&& t.0.honor_cd == s.honor_cd && t.0.budget == s.budget
            &&& match turn_of(s, m) {
                Turn::Answer(out) => !t.1 && (t.0.stage matches StageView::Over(Ok(o)) && o.answers
                    == out.answers && o.header.rcode == out.header.rcode),
                Turn::End { positive } => v ==> !t.1 && t.0.stage == (StageView::JudgingEnd {
                    response: m,
                    chain,
                    positive,
                }) && t.0.hops == s.hops && t.0.current == s.current,
                Turn::Alias(a) => {
                    &&& !t.1
                    &&& v ==> t.0.stage == (StageView::JudgingAlias { response: m, chain, alias: a })
                        && t.0.hops == s.hops && t.0.current == s.current
                    &&& !v && a.cname_depth <= r.max_cnames && a.dname_depth <= r.max_dnames ==> {
                        &&& t.0.stage is Walking
                        &&& t.0.current == a.target
                        &&& t.0.hops.len() == s.hops.len() + 1
                        &&& t.0.hops.last().records == a.records
                        &&& t.0.hops.last().questions == m.questions
                    }
                },
            }
        }),
{
    let t = walk_done(r, s, Ok((m, chain)));
}

/// Once an alias is validated, the question goes on at its target with that status noted;
/// one alias too many ends it with the error that says so.
pub proof fn law_where_an_alias_leads(
    r: Recursor,
    s: ResolutionView,
    response: MessageView,
    chain: Seq<ZoneStepView>,
    alias: AliasAheadView,
    status: SecurityStatus,
)
    requires
        s.stage == (StageView::JudgingAlias { response, chain, alias }),
    ensures
        ({
            let t = validation_done(r, s, status);
            &&& !t.1
            &&& t.0.qname == s.qname && t.0.qtype == s.qtype
            &&& alias.cname_depth <= r.max_cnames && alias.dname_depth <= r.max_dnames ==> {
                &&& t.0.stage is Walking
                &&& t.0.current == alias.target
                &&& t.0.cname_depth == alias.cname_depth && t.0.dname_depth == alias.dname_depth
                &&& t.0.hops.len() == s.hops.len() + 1
                &&& t.0.hops.drop_last() == s.hops
                &&& t.0.hops.last().records == alias.records
                &&& t.0.hops.last().questions == response.questions
                &&& t.0.hops.last().status == status
            }
            &&& alias.cname_depth > r.max_cnames ==> t.0.stage == StageView::Over(
                Err(RecurseError::TooManyCnames),
            )
            &&& alias.cname_depth <= r.max_cnames && alias.dname_depth > r.max_dnames ==> t.0.stage
                == StageView::Over(Err(RecurseError::TooManyDnames))
        }),
{
    let t = validation_done(r, s, status);
    if alias.cname_depth <= r.max_cnames && alias.dname_depth <= r.max_dnames {
        assert(t.0.hops.drop_last() =~= s.hops);
    }
}

/// The records along aliases come in the order in which they were followed.
pub proof fn law_records_come_in_the_order_of_the_aliases(
    hops: Seq<HopView>,
    next: HopView,
)
    ensures
        records_of(Seq::empty()).len() == 0,
        records_of(hops.push(next)) == records_of(hops) + next.records,
{
    assert(hops.push(next).drop_last() =~= hops);
}

/// The end of a question. Behind aliases the answer holds the records of all of them in
/// the order in which they were followed, then what stands at the last name, under the
/// client's own question; its code is that of the last response. It is marked as authentic
/// exactly where validation is on and every part was found secure, and it goes out unless
/// a part is bogus and nobody puts up with that.
pub proof fn law_the_whole_way_is_in_the_answer(
    r: Recursor,
    s: ResolutionView,
    response: MessageView,
    leaf: Option<Seq<Seq<u8>>>,
    positive: bool,
    status: SecurityStatus,
)
    requires
        s.hops.len() > 0,
        !s.nested,
        (status is Bogus || exists|i: int|
            0 <= i < s.hops.len() && (#[trigger] s.hops[i]).status is Bogus) ==> r.permissive
            || s.honor_cd || r.trust_anchors@.len() == 0,
    ensures
        ({
            let t = ended(r, s, response, leaf, positive, status);
            let end = sanitized(
                response,
                s.current,
                s.qtype,
                positive,
                if positive {
                    None
                } else {
                    leaf
                },
            );
            &&& !t.1
            &&& t.0.hops.len() == 0
            &&& t.0.stage matches StageView::Over(Ok(m)) && m.answers == records_of(s.hops)
                + end.answers && m.questions == s.hops[0].questions && m.header.rcode
                == response.header.rcode && m.authorities == end.authorities && m.additionals
                == end.additionals && m.header.response && m.header.recursion_available
                && !m.header.authoritative && (m.header.authentic_data
                <==> r.trust_anchors@.len() > 0 && !s.honor_cd && status is Secure && forall|i: int|
                0 <= i < s.hops.len() ==> (#[trigger] s.hops[i]).status is Secure)
        }),
{
    let end = alias_tail(s, response, leaf, positive);
    lemma_unwound(s.hops, end, status);
    law_the_worst_part_counts(s.hops, end, status);
}

/// A question that needs no alias ends with the response itself, cleaned, under the same
/// conditions.
pub proof fn law_a_direct_answer_ends_the_question(
    r: Recursor,
    s: ResolutionView,
    response: MessageView,
    leaf: Option<Seq<Seq<u8>>>,
    positive: bool,
    status: SecurityStatus,
)
    requires
        s.hops.len() == 0,
        !s.nested,
        status is Bogus ==> r.permissive || s.honor_cd || r.trust_anchors@.len() == 0,
        s.qname.len() > 0 ==> crate::resolve::sentinel_of(s.qname[0]) is None,
    ensures
        ({
            let t = ended(r, s, response, leaf, positive, status);
            let end = sanitized(response, s.qname, s.qtype, positive, leaf);
            &&& !t.1
            &&& t.0.stage matches StageView::Over(Ok(m)) && m.answers == end.answers && m.questions
                == response.questions && m.header.rcode == response.header.rcode && m.authorities
                == end.authorities && m.header.response && !m.header.authoritative && (
            m.header.authentic_data <==> r.trust_anchors@.len() > 0 && !s.honor_cd
                && status is Secure)
        }),
{
    crate::resolve::law_what_may_go_out_goes_out(
        r,
        s.qname,
        s.qtype,
        response,
        positive,
        counting(r, s, status),
        s.honor_cd,
        leaf,
    );
}

/// A question within another ends with the whole way too, and is left unmarked.
pub proof fn law_a_nested_question_ends(
    r: Recursor,
    s: ResolutionView,
    response: MessageView,
    leaf: Option<Seq<Seq<u8>>>,
    positive: bool,
    status: SecurityStatus,
)
    requires
        s.nested,
    ensures
        ({
            let t = ended(r, s, response, leaf, positive, status);
            let end = sanitized(
                response,
                s.current,
                s.qtype,
                positive,
                if positive {
                    None
                } else {
                    leaf
                },
            );
            &&& !t.1
            &&& t.0.stage matches StageView::Over(Ok(m)) && m.answers == records_of(s.hops)
                + end.answers && m.header == response.header && m.authorities == end.authorities
        }),
{
    lemma_unwound(s.hops, alias_tail(s, response, leaf, positive), status);
}

/// The zone that a response came from is the last of the chain.
pub proof fn law_the_last_zone_answers(chain: Seq<ZoneStepView>, z: ZoneStepView)
    ensures
        leaf_of(Seq::empty()) is None,
        leaf_of(chain.push(z)) == Some(z.zone),
{
    assert(chain.push(z).last() == z);
}

/// What a response to a question leads to: the first one is read as such, and ends the
/// question where a renamed name would be too long; behind an alias or within another
/// question it is read as a further one, with the aliases followed so far counted on.
pub proof fn law_what_a_response_leads_to(s: ResolutionView, m: MessageView)
    ensures
        s.hops.len() == 0 && !s.nested ==> match answer_step_of(m, s.current, s.qtype) {
            AnswerStepView::Done(out) => turn_of(s, m) == Turn::Answer(out),
            AnswerStepView::Terminal { positive, .. } => turn_of(s, m) == (Turn::End { positive }),
            AnswerStepView::Follow { hop, cname_depth, dname_depth, .. } => turn_of(
                s,
                m,
            ) matches Turn::Alias(a) && a.target == hop.target && a.owner == hop.owner && a.atype
                == hop.atype && a.records == hop.records && a.cname_depth == cname_depth
                && a.dname_depth == dname_depth,
        },
        s.hops.len() > 0 || s.nested ==> match inner_step_of(
            m,
            s.current,
            s.qtype,
            s.cname_depth,
            s.dname_depth,
        ) {
            InnerStepView::Terminal { positive } => turn_of(s, m) == (Turn::End { positive }),
            InnerStepView::Follow { target, owner, atype, records, cname_depth, dname_depth } =>
                turn_of(s, m) matches Turn::Alias(a) && a.target == target && a.owner == owner
                && a.atype == atype && a.records == records && a.cname_depth == cname_depth
                && a.dname_depth == dname_depth,
        },
{
}

/// An answer that was held back counts as one bogus answer more, and a count that is full
/// starts over; any other answer leaves the count.
pub proof fn law_answers_held_back_are_counted(before: u64)
    ensures
        tally(before, false) == before,
        before < 0xffff_ffff_ffff_ffff ==> tally(before, true) == before + 1,
        tally(0xffff_ffff_ffff_ffff, true) == 0,
{
}

} // verus!
