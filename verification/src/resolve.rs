//! From the end of a walk to an answer: aliases, validation outcomes, and what
//! is handed to the client.

use vstd::prelude::*;

use crate::chain::SecurityStatus;
use crate::message::{
    Ds, Header, Message, MessageView, Question, QuestionView, RData, Record, RecordView, CLASS_IN,
    RCODE_NOERROR, RCODE_NXDOMAIN, RCODE_SERVFAIL, TYPE_A, TYPE_AAAA, TYPE_CNAME, TYPE_DNAME,
};
use crate::name::{lower_label, same_name, Name};
use crate::query::{bogus_servfail, bogus_servfail_of, counted, ValidationCounter};
use crate::recursor::{RecurseError, Recursor};
use crate::response::{
    alias_hop, alias_hop_of, alias_rrset_records, alias_set_at, cname_target, cname_target_of,
    direct_answer, dname_overflow, dname_rewrite, dname_rewrite_of, has_direct_qtype_answer,
    is_dname_yxdomain, name_view, sanitize_terminal_response, sanitized, AliasHop, AliasHopView,
};
use crate::seqs::{keep_only, lemma_views_push, replicate_all, views};

verus! {

// ---- questions about trust anchors ----

/// "root-key-sentinel-is-ta-"
pub open spec fn sentinel_is() -> Seq<u8> {
    seq![
        114, 111, 111, 116, 45, 107, 101, 121, 45, 115, 101, 110, 116, 105, 110, 101, 108, 45, 105,
        115, 45, 116, 97, 45,
    ]
}

/// "root-key-sentinel-not-ta-"
pub open spec fn sentinel_not() -> Seq<u8> {
    seq![
        114, 111, 111, 116, 45, 107, 101, 121, 45, 115, 101, 110, 116, 105, 110, 101, 108, 45, 110,
        111, 116, 45, 116, 97, 45,
    ]
}

pub open spec fn is_digit(b: u8) -> bool {
    48 <= b <= 57
}

/// The number that five decimal digits write, from `at` on.
pub open spec fn five_digits(l: Seq<u8>, at: int) -> int {
    (l[at] - 48) * 10000 + (l[at + 1] - 48) * 1000 + (l[at + 2] - 48) * 100 + (l[at + 3] - 48) * 10
        + (l[at + 4] - 48)
}

/// `l` is `prefix`, in any letter case, followed by exactly five digits that
/// write a 16-bit number.
pub open spec fn sentinel_form(l: Seq<u8>, prefix: Seq<u8>) -> bool {
    &&& l.len() == prefix.len() + 5
    &&& lower_label(l.take(prefix.len() as int)) == prefix
    &&& forall|i: int| prefix.len() <= i < l.len() ==> is_digit(#[trigger] l[i])
    &&& five_digits(l, prefix.len() as int) <= 65535
}

/// What a label asks about a trust anchor: whether the key with this tag is
/// one (`true`), or whether it is not.
pub open spec fn sentinel_of(l: Seq<u8>) -> Option<(bool, u16)> {
    if sentinel_form(l, sentinel_is()) {
        Some((true, five_digits(l, sentinel_is().len() as int) as u16))
    } else if sentinel_form(l, sentinel_not()) {
        Some((false, five_digits(l, sentinel_not().len() as int) as u16))
    } else {
        None
    }
}

pub open spec fn has_tag(anchors: Seq<Ds>, tag: u16) -> bool {
    exists|i: int| 0 <= i < anchors.len() && (#[trigger] anchors[i]).key_tag == tag
}

/// The label's claim does not hold of the trust anchors.
pub open spec fn sentinel_fails(l: Seq<u8>, anchors: Seq<Ds>) -> bool {
    match sentinel_of(l) {
        Some(s) => s.0 != has_tag(anchors, s.1),
        None => false,
    }
}

/// The number at the end of a label of the given form, if it has that form.
fn match_sentinel(l: &Vec<u8>, prefix: &Vec<u8>) -> (r: Option<u16>)
    requires
        prefix.len() < 1000,
    ensures
        r is Some <==> sentinel_form(l@, prefix@),
        r matches Some(t) ==> t == five_digits(l@, prefix@.len() as int),
{
    let n: usize = prefix.len();
    if l.len() != n + 5 {
        return None;
    }
    let ghost head = l@.take(n as int);
    let mut i: usize = 0;
    while i < n
        invariant
            i <= n,
            n == prefix.len(),
            l.len() == n + 5,
            n < 1000,
            head == l@.take(n as int),
            forall|k: int| 0 <= k < i ==> lower_label(head)[k] == #[trigger] prefix@[k],
        decreases n - i,
    {
        let b: u8 = l[i];
        let c: u8 = if b >= 65 && b <= 90 {
            b + 32
        } else {
            b
        };
        assert(lower_label(head)[i as int] == c);
        if c != prefix[i] {
            assert(lower_label(head)[i as int] != prefix@[i as int]);
            return None;
        }
        i = i + 1;
    }
    assert(lower_label(head) =~= prefix@);
    let mut value: u32 = 0;
    let mut k: usize = 0;
    while k < 5
        invariant
            k <= 5,
            n < 1000,
            l.len() == n + 5,
            forall|j: int| n <= j < n + k ==> is_digit(#[trigger] l@[j]),
            k == 0 ==> value == 0,
            k == 1 ==> value == l@[n as int] - 48,
            k == 2 ==> value == (l@[n as int] - 48) * 10 + (l@[n + 1] - 48),
            k == 3 ==> value == (l@[n as int] - 48) * 100 + (l@[n + 1] - 48) * 10 + (l@[n + 2]
                - 48),
            k == 4 ==> value == (l@[n as int] - 48) * 1000 + (l@[n + 1] - 48) * 100 + (l@[n + 2]
                - 48) * 10 + (l@[n + 3] - 48),
            k == 5 ==> value == five_digits(l@, n as int),
            value < 100000,
            k < 5 ==> value < 10000,
        decreases 5 - k,
    {
        let b: u8 = l[n + k];
        if b < 48 || b > 57 {
            assert(!is_digit(l@[n + k]));
            return None;
        }
        value = value * 10 + (b - 48) as u32;
        k = k + 1;
    }
    if value > 65535 {
        return None;
    }
    Some(value as u16)
}

/// Whether a label asks about a trust anchor and its claim does not hold.
pub fn sentinel_claim_fails(label: &Vec<u8>, anchors: &Vec<Ds>) -> (r: bool)
    ensures
        r == sentinel_fails(label@, anchors@),
{
    let is_prefix: Vec<u8> = vec![
        114, 111, 111, 116, 45, 107, 101, 121, 45, 115, 101, 110, 116, 105, 110, 101, 108, 45, 105,
        115, 45, 116, 97, 45,
    ];
    let not_prefix: Vec<u8> = vec![
        114, 111, 111, 116, 45, 107, 101, 121, 45, 115, 101, 110, 116, 105, 110, 101, 108, 45, 110,
        111, 116, 45, 116, 97, 45,
    ];
    assert(is_prefix@ =~= sentinel_is());
    assert(not_prefix@ =~= sentinel_not());
    let (claim, tag): (bool, u16) = match match_sentinel(label, &is_prefix) {
        Some(t) => (true, t),
        None => match match_sentinel(label, &not_prefix) {
            Some(t) => (false, t),
            None => {
                return false;
            },
        },
    };
    let mut found: bool = false;
    let mut i: usize = 0;
    while i < anchors.len()
        invariant
            i <= anchors.len(),
            found == exists|k: int| 0 <= k < i && (#[trigger] anchors@[k]).key_tag == tag,
        decreases anchors.len() - i,
    {
        if anchors[i].key_tag == tag {
            assert(anchors@[i as int].key_tag == tag);
            found = true;
        }
        i = i + 1;
    }
    assert(found == has_tag(anchors@, tag));
    claim != found
}

/// A validated answer to a question about trust anchors turns into a server
/// failure where the question's claim does not hold.
pub open spec fn sentinel_applied(
    r: Recursor,
    qname: Seq<Seq<u8>>,
    qtype: u16,
    m: MessageView,
) -> MessageView {
    if r.root_key_sentinel && m.header.authentic_data && (qtype == TYPE_A || qtype == TYPE_AAAA)
        && qname.len() > 0 && sentinel_fails(qname[0], r.trust_anchors@) {
        MessageView {
            header: Header { rcode: RCODE_SERVFAIL, authentic_data: false, ..m.header },
            answers: Seq::empty(),
            authorities: Seq::empty(),
            additionals: Seq::empty(),
            ..m
        }
    } else {
        m
    }
}

impl Recursor {
    /// Lets a client find out, from the difference between two answers, which
    /// trust anchors are in use. Only validated answers are changed.
    pub fn apply_sentinel(&self, qname: &Name, qtype: u16, out: &mut Message)
        ensures
            final(out)@ == sentinel_applied(*self, qname@, qtype, old(out)@),
    {
        if !self.root_key_sentinel || !out.header.authentic_data {
            return ;
        }
        if qtype != TYPE_A && qtype != TYPE_AAAA {
            return ;
        }
        if qname.is_root() {
            return ;
        }
        let first = qname.label(0);
        if sentinel_claim_fails(&first, &self.trust_anchors) {
            out.answers.clear();
            out.authorities.clear();
            out.additionals.clear();
            out.header.rcode = RCODE_SERVFAIL;
            out.header.authentic_data = false;
            assert(out@.answers =~= Seq::<RecordView>::empty());
            assert(out@.authorities =~= Seq::<RecordView>::empty());
            assert(out@.additionals =~= Seq::<RecordView>::empty());
        }
    }
}

// ---- the answer to a client ----

/// A DNAME of the Internet class, or a signature over DNAMEs.
pub open spec fn dname_or_signature() -> spec_fn(RecordView) -> bool {
    |r: RecordView|
        r.class == CLASS_IN && (r.rdata is Dname || (r.rdata is Rrsig
            && r.rdata->Rrsig_0.type_covered == TYPE_DNAME))
}

/// The answer where a renaming gives too long a name: the DNAME and its
/// signatures, not vouched for.
pub open spec fn overflow_answer(m: MessageView) -> MessageView {
    MessageView {
        header: Header {
            authentic_data: false,
            response: true,
            recursion_available: true,
            ..m.header
        },
        answers: m.answers.filter(dname_or_signature()),
        authorities: Seq::empty(),
        additionals: Seq::empty(),
        ..m
    }
}

/// The answer under a validation outcome: marked as authentic where it is
/// secure, a server failure where it is bogus and nobody asked to see bogus
/// data, unmarked in any other case. No outcome means that nothing was
/// validated.
pub open spec fn judged(
    r: Recursor,
    m: MessageView,
    status: Option<SecurityStatus>,
    honor_cd: bool,
) -> MessageView {
    match status {
        Some(SecurityStatus::Secure) => MessageView {
            header: Header { authentic_data: true, ..m.header },
            ..m
        },
        Some(SecurityStatus::Bogus(code)) => if !r.permissive && !honor_cd {
            bogus_servfail_of(m, code)
        } else {
            MessageView { header: Header { authentic_data: false, ..m.header }, ..m }
        },
        _ => MessageView { header: Header { authentic_data: false, ..m.header }, ..m },
    }
}

/// The outcome holds the answer back.
pub open spec fn held_back(r: Recursor, status: Option<SecurityStatus>, honor_cd: bool) -> bool {
    status matches Some(s) && s is Bogus && !r.permissive && !honor_cd
}

pub open spec fn as_response(m: MessageView) -> MessageView {
    MessageView { header: Header { response: true, recursion_available: true, ..m.header }, ..m }
}

/// The answer that ends without an alias.
pub open spec fn terminal_answer(
    r: Recursor,
    qname: Seq<Seq<u8>>,
    qtype: u16,
    m: MessageView,
    positive: bool,
    status: Option<SecurityStatus>,
    honor_cd: bool,
    leaf: Option<Seq<Seq<u8>>>,
) -> MessageView {
    as_response(
        sentinel_applied(
            r,
            qname,
            qtype,
            sanitized(judged(r, m, status, honor_cd), qname, qtype, positive, leaf),
        ),
    )
}

/// The tail of an alias with the alias records before it, under the question
/// that was asked.
pub open spec fn merged(
    records: Seq<RecordView>,
    questions: Seq<QuestionView>,
    tail: MessageView,
) -> MessageView {
    MessageView { answers: records + tail.answers, questions, ..tail }
}

/// What is left to do after a walk for a client's question.
pub enum AnswerStep {
    /// This is the answer.
    Done(Message),
    /// The response ends the search. It is an answer (`positive`) or a denial,
    /// and has to be validated first where validation is on.
    Terminal { response: Message, positive: bool },
    /// The alias has to be followed; its owner and type say what to validate.
    Follow { hop: AliasHop, response: Message, cname_depth: usize, dname_depth: usize },
}

pub enum AnswerStepView {
    Done(MessageView),
    Terminal { response: MessageView, positive: bool },
    Follow { hop: AliasHopView, response: MessageView, cname_depth: int, dname_depth: int },
}

impl View for AnswerStep {
    type V = AnswerStepView;

    open spec fn view(&self) -> AnswerStepView {
        match self {
            AnswerStep::Done(m) => AnswerStepView::Done(m@),
            AnswerStep::Terminal { response, positive } => AnswerStepView::Terminal {
                response: response@,
                positive: *positive,
            },
            AnswerStep::Follow { hop, response, cname_depth, dname_depth } => AnswerStepView::Follow {
                hop: hop@,
                response: response@,
                cname_depth: *cname_depth as int,
                dname_depth: *dname_depth as int,
            },
        }
    }
}

pub open spec fn answer_step_of(
    m: MessageView,
    qname: Seq<Seq<u8>>,
    qtype: u16,
) -> AnswerStepView {
    if dname_overflow(m, qname) {
        AnswerStepView::Done(overflow_answer(m))
    } else {
        match alias_hop_of(m, qname, qtype) {
            None => AnswerStepView::Terminal {
                response: m,
                positive: m.header.rcode == RCODE_NOERROR && direct_answer(m, qname, qtype),
            },
            Some(hop) => AnswerStepView::Follow {
                hop,
                response: m,
                cname_depth: if hop.atype == TYPE_DNAME {
                    0
                } else {
                    1
                },
                dname_depth: if hop.atype == TYPE_DNAME {
                    1
                } else {
                    0
                },
            },
        }
    }
}

/// Decides what a response at the end of a walk leads to. A renaming that
/// overflows ends the question; an alias is followed; anything else is judged
/// as answer or denial.
pub fn answer_step(resp: Message, qname: &Name, qtype: u16) -> (r: AnswerStep)
    ensures
        r@ == answer_step_of(resp@, qname@, qtype),
{
    if is_dname_yxdomain(&resp, qname) {
        let mut out = resp;
        out.header.authentic_data = false;
        keep_only(
            &mut out.answers,
            |r: &Record| -> (b: bool)
                ensures
                    b == dname_or_signature()(r@)
                {
                    r.class == CLASS_IN && match &r.rdata {
                        RData::Dname(_) => true,
                        RData::Rrsig(s) => s.type_covered == TYPE_DNAME,
                        _ => false,
                    }
                },
            Ghost(dname_or_signature()),
        );
        out.authorities.clear();
        out.additionals.clear();
        out.header.response = true;
        out.header.recursion_available = true;
        assert(out@.authorities =~= Seq::<RecordView>::empty());
        assert(out@.additionals =~= Seq::<RecordView>::empty());
        return AnswerStep::Done(out);
    }
    match alias_hop(&resp, qname, qtype) {
        None => {
            let positive: bool = resp.header.rcode == RCODE_NOERROR && has_direct_qtype_answer(
                &resp,
                qname,
                qtype,
            );
            AnswerStep::Terminal { response: resp, positive }
        },
        Some(hop) => {
            let by_dname: bool = hop.atype == TYPE_DNAME;
            AnswerStep::Follow {
                hop,
                response: resp,
                cname_depth: if by_dname {
                    0
                } else {
                    1
                },
                dname_depth: if by_dname {
                    1
                } else {
                    0
                },
            }
        },
    }
}

impl Recursor {
    /// Whether a question can be worked on at all.
    pub fn check_roots(&self) -> (r: Result<(), RecurseError>)
        ensures
            r is Ok <==> self.roots@.len() > 0,
            r matches Err(e) ==> e == RecurseError::NoRoots,
    {
        if self.roots.len() == 0 {
            Err(RecurseError::NoRoots)
        } else {
            Ok(())
        }
    }

    pub(crate) fn judge_answer(
        &self,
        m: Message,
        status: Option<SecurityStatus>,
        honor_cd: bool,
        counter: &mut ValidationCounter,
    ) -> (r: Message)
        ensures
            r@ == judged(*self, m@, status, honor_cd),
            final(counter).bogus_total == if held_back(*self, status, honor_cd) {
                counted(old(counter).bogus_total)
            } else {
                old(counter).bogus_total
            },
    {
        let mut out = m;
        match status {
            Some(SecurityStatus::Secure) => {
                out.header.authentic_data = true;
                out
            },
            Some(SecurityStatus::Bogus(code)) => {
                if !self.permissive && !honor_cd {
                    bogus_servfail(&out, code, counter)
                } else {
                    out.header.authentic_data = false;
                    out
                }
            },
            _ => {
                out.header.authentic_data = false;
                out
            },
        }
    }

    /// Finishes an answer that ends without an alias. The mark of authenticity
    /// comes from our own validation alone, never from the response.
    pub fn finish_terminal(
        &self,
        response: Message,
        qname: &Name,
        qtype: u16,
        positive: bool,
        status: Option<SecurityStatus>,
        honor_cd: bool,
        leaf: Option<&Name>,
        counter: &mut ValidationCounter,
    ) -> (r: Message)
        ensures
            r@ == terminal_answer(
                *self,
                qname@,
                qtype,
                response@,
                positive,
                status,
                honor_cd,
                name_view(leaf),
            ),
            final(counter).bogus_total == if held_back(*self, status, honor_cd) {
                counted(old(counter).bogus_total)
            } else {
                old(counter).bogus_total
            },
    {
        let mut out = self.judge_answer(response, status, honor_cd, counter);
        sanitize_terminal_response(&mut out, qname, qtype, positive, leaf);
        self.apply_sentinel(qname, qtype, &mut out);
        out.header.response = true;
        out.header.recursion_available = true;
        out
    }
}

/// Puts the alias records before the answers of the tail, under the question
/// that was asked.
pub fn merge_tail(records: Vec<Record>, questions: &Vec<Question>, tail: Message) -> (r: Message)
    ensures
        r@ == merged(views(records@), views(questions@), tail@),
{
    let mut tail = tail;
    let ghost a = records@;
    let ghost b = tail.answers@;
    let mut all = records;
    all.append(&mut tail.answers);
    assert(views(all@) =~= views(a) + views(b));
    tail.answers = all;
    tail.questions = replicate_all(questions);
    tail
}

/// What goes out does not speak with authority: it was found, not owned.
pub fn deliver(out: Message) -> (r: Message)
    ensures
        r@ == (MessageView {
            header: Header { authoritative: false, ..out@.header },
            ..out@
        }),
{
    let mut out = out;
    out.header.authoritative = false;
    out
}

/// An answer is marked as authentic only where validation found everything
/// secure.
pub proof fn law_only_secure_answers_are_marked_authentic(
    r: Recursor,
    qname: Seq<Seq<u8>>,
    qtype: u16,
    m: MessageView,
    positive: bool,
    status: Option<SecurityStatus>,
    honor_cd: bool,
    leaf: Option<Seq<Seq<u8>>>,
)
    ensures
        terminal_answer(
            r,
            qname,
            qtype,
            m,
            positive,
            status,
            honor_cd,
            leaf,
        ).header.authentic_data ==> status == Some(SecurityStatus::Secure),
{
}

/// A bogus answer never reaches a client who did not ask for unchecked data:
/// what goes out is a server failure without any answer.
pub proof fn law_bogus_answers_are_withheld(
    r: Recursor,
    qname: Seq<Seq<u8>>,
    qtype: u16,
    m: MessageView,
    positive: bool,
    code: u16,
    leaf: Option<Seq<Seq<u8>>>,
)
    requires
        !r.permissive,
    ensures
        ({
            let out = terminal_answer(
                r,
                qname,
                qtype,
                m,
                positive,
                Some(SecurityStatus::Bogus(code)),
                false,
                leaf,
            );
            &&& out.header.rcode == RCODE_SERVFAIL
            &&& !out.header.authentic_data
            &&& out.answers.len() == 0
            &&& out.authorities.len() == 0
        }),
{
    reveal(Seq::filter);
    let f = bogus_servfail_of(m, code);
    assert(f.answers.len() == 0);
    assert(f.authorities.len() == 0);
    crate::seqs::lemma_filter_holds(
        f.answers,
        crate::response::kept_answer(qname, qtype),
    );
    crate::seqs::lemma_filter_holds(f.authorities, crate::response::kept_denial(leaf));
}

// ---- inside an alias ----

/// What is left to do after a walk inside an alias chain.
pub enum InnerStep {
    /// The alias has to be followed; its owner and type say what to validate.
    Follow {
        target: Name,
        owner: Name,
        atype: u16,
        records: Vec<Record>,
        cname_depth: usize,
        dname_depth: usize,
    },
    /// The response ends the chain, as answer (`positive`) or denial.
    Terminal { positive: bool },
}

pub enum InnerStepView {
    Follow {
        target: Seq<Seq<u8>>,
        owner: Seq<Seq<u8>>,
        atype: u16,
        records: Seq<RecordView>,
        cname_depth: int,
        dname_depth: int,
    },
    Terminal { positive: bool },
}

impl View for InnerStep {
    type V = InnerStepView;

    open spec fn view(&self) -> InnerStepView {
        match self {
            InnerStep::Follow {
                target,
                owner,
                atype,
                records,
                cname_depth,
                dname_depth,
            } => InnerStepView::Follow {
                target: target@,
                owner: owner@,
                atype: *atype,
                records: views(records@),
                cname_depth: *cname_depth as int,
                dname_depth: *dname_depth as int,
            },
            InnerStep::Terminal { positive } => InnerStepView::Terminal { positive: *positive },
        }
    }
}

/// A DNAME is followed before anything else counts; then comes the data asked
/// for, then a denial of the name, then a CNAME; what is left denies the type.
pub open spec fn inner_step_of(
    m: MessageView,
    qname: Seq<Seq<u8>>,
    qtype: u16,
    cname_depth: int,
    dname_depth: int,
) -> InnerStepView {
    if let Some(d) = dname_rewrite_of(m, qname) {
        InnerStepView::Follow {
            target: d.1,
            owner: d.0.name,
            atype: TYPE_DNAME,
            records: m.answers.filter(alias_set_at(d.0.name, TYPE_DNAME)).push(d.2),
            cname_depth,
            dname_depth: dname_depth + 1,
        }
    } else if direct_answer(m, qname, qtype) {
        InnerStepView::Terminal { positive: true }
    } else if m.header.rcode == RCODE_NXDOMAIN {
        InnerStepView::Terminal { positive: false }
    } else if let Some(t) = cname_target_of(m, qname) {
        InnerStepView::Follow {
            target: t,
            owner: qname,
            atype: TYPE_CNAME,
            records: m.answers.filter(alias_set_at(qname, TYPE_CNAME)),
            cname_depth: cname_depth + 1,
            dname_depth,
        }
    } else {
        InnerStepView::Terminal { positive: false }
    }
}

/// The alias chain may go on at this depth.
pub open spec fn depth_error(r: Recursor, cname_depth: int, dname_depth: int) -> Option<
    RecurseError,
> {
    if cname_depth > r.max_cnames {
        Some(RecurseError::TooManyCnames)
    } else if dname_depth > r.max_dnames {
        Some(RecurseError::TooManyDnames)
    } else {
        None
    }
}

impl Recursor {
    /// Whether the alias chain may go on at this depth.
    pub fn admit_depth(&self, cname_depth: usize, dname_depth: usize) -> (r: Result<
        (),
        RecurseError,
    >)
        ensures
            r is Ok <==> depth_error(*self, cname_depth as int, dname_depth as int) is None,
            r matches Err(e) ==> depth_error(*self, cname_depth as int, dname_depth as int) == Some(e),
    {
        if cname_depth > self.max_cnames {
            return Err(RecurseError::TooManyCnames);
        }
        if dname_depth > self.max_dnames {
            return Err(RecurseError::TooManyDnames);
        }
        Ok(())
    }
}

/// Decides what a response inside an alias chain leads to.
pub fn inner_step(
    resp: &Message,
    qname: &Name,
    qtype: u16,
    cname_depth: usize,
    dname_depth: usize,
) -> (r: InnerStep)
    requires
        cname_depth < usize::MAX,
        dname_depth < usize::MAX,
    ensures
        r@ == inner_step_of(resp@, qname@, qtype, cname_depth as int, dname_depth as int),
{
    if let Some((dname_record, target, synthetic)) = dname_rewrite(resp, qname) {
        let owner = dname_record.name;
        let mut records = alias_rrset_records(resp, &owner, TYPE_DNAME);
        proof {
            lemma_views_push(records@, synthetic);
        }
        records.push(synthetic);
        return InnerStep::Follow {
            target,
            owner,
            atype: TYPE_DNAME,
            records,
            cname_depth,
            dname_depth: dname_depth + 1,
        };
    }
    if has_direct_qtype_answer(resp, qname, qtype) {
        return InnerStep::Terminal { positive: true };
    }
    if resp.header.rcode == RCODE_NXDOMAIN {
        return InnerStep::Terminal { positive: false };
    }
    match cname_target(resp, qname) {
        Some(target) => InnerStep::Follow {
            target,
            owner: qname.clone(),
            atype: TYPE_CNAME,
            records: alias_rrset_records(resp, qname, TYPE_CNAME),
            cname_depth: cname_depth + 1,
            dname_depth,
        },
        None => InnerStep::Terminal { positive: false },
    }
}

/// What the response at the end of a walk is read as, at the beginning of a client's
/// question or behind the aliases that were followed for it.
pub enum ReadResponse {
    /// This is the answer.
    Answer(Message),
    /// The alias has to be followed.
    Follow { hop: AliasHop, response: Message },
    /// The response ends the search, as answer (`positive`) or denial.
    End { response: Message, positive: bool },
}

pub enum Reading {
    Answer(MessageView),
    Follow(AliasHopView),
    End { positive: bool },
}

pub open spec fn reading_of(
    first: bool,
    m: MessageView,
    qname: Seq<Seq<u8>>,
    qtype: u16,
) -> Reading {
    if first {
        match answer_step_of(m, qname, qtype) {
            AnswerStepView::Done(out) => Reading::Answer(out),
            AnswerStepView::Terminal { positive, .. } => Reading::End { positive },
            AnswerStepView::Follow { hop, .. } => Reading::Follow(hop),
        }
    } else {
        match inner_step_of(m, qname, qtype, 0, 0) {
            InnerStepView::Terminal { positive } => Reading::End { positive },
            InnerStepView::Follow { target, owner, atype, records, .. } => Reading::Follow(
                AliasHopView { target, owner, atype, records },
            ),
        }
    }
}

/// Reads a response at the end of a walk.
pub fn read_response(first: bool, resp: Message, qname: &Name, qtype: u16) -> (r: ReadResponse)
    ensures
        match reading_of(first, resp@, qname@, qtype) {
            Reading::Answer(out) => r matches ReadResponse::Answer(m) && m@ == out,
            Reading::Follow(h) => {
                &&& r matches ReadResponse::Follow { hop, response }
                &&& hop@ == h
                &&& response@ == resp@
            },
            Reading::End { positive: p } => {
                &&& r matches ReadResponse::End { response, positive }
                &&& response@ == resp@
                &&& positive == p
            },
        },
{
    if first {
        match answer_step(resp, qname, qtype) {
            AnswerStep::Done(out) => ReadResponse::Answer(out),
            AnswerStep::Terminal { response, positive } => ReadResponse::End { response, positive },
            AnswerStep::Follow { hop, response, .. } => ReadResponse::Follow { hop, response },
        }
    } else {
        match inner_step(&resp, qname, qtype, 0, 0) {
            InnerStep::Terminal { positive } => ReadResponse::End { response: resp, positive },
            InnerStep::Follow { target, owner, atype, records, .. } => ReadResponse::Follow {
                hop: AliasHop { target, owner, atype, records },
                response: resp,
            },
        }
    }
}

/// The response that ends an alias chain, without what nobody vouches for. A
/// denial keeps the proofs of the zone that it came from.
pub fn finish_inner(
    resp: Message,
    qname: &Name,
    qtype: u16,
    positive: bool,
    leaf: Option<&Name>,
) -> (r: Message)
    ensures
        r@ == sanitized(
            resp@,
            qname@,
            qtype,
            positive,
            if positive {
                None
            } else {
                name_view(leaf)
            },
        ),
{
    let mut out = resp;
    if positive {
        sanitize_terminal_response(&mut out, qname, qtype, true, None);
    } else {
        sanitize_terminal_response(&mut out, qname, qtype, false, leaf);
    }
    out
}

/// "root-key-sentinel-is-ta-" or "root-key-sentinel-not-ta-", in any letter case, and five
/// digits: exactly such labels ask about an anchor, about the one with that number.
pub proof fn law_labels_that_ask_about_an_anchor(l: Seq<u8>, tag: u16)
    ensures
        sentinel_of(l) == Some((true, tag)) <==> {
            &&& l.len() == 29
            &&& same_name(
                seq![l.take(24)],
                seq![
                    seq![
                        114u8, 111, 111, 116, 45, 107, 101, 121, 45, 115, 101, 110, 116, 105, 110, 101,
                        108, 45, 105, 115, 45, 116, 97, 45,
                    ],
                ],
            )
            &&& asks_for_tag(l, 24, tag)
        },
        sentinel_of(l) == Some((false, tag)) <==> {
            &&& l.len() == 30
            &&& same_name(
                seq![l.take(25)],
                seq![
                    seq![
                        114u8, 111, 111, 116, 45, 107, 101, 121, 45, 115, 101, 110, 116, 105, 110, 101,
                        108, 45, 110, 111, 116, 45, 116, 97, 45,
                    ],
                ],
            )
            &&& asks_for_tag(l, 25, tag)
        },
{
    assert(lower_label(sentinel_is()) =~= sentinel_is());
    assert(lower_label(sentinel_not()) =~= sentinel_not());
    lemma_one_label(l.take(24), sentinel_is());
    lemma_one_label(l.take(25), sentinel_not());
}

/// Five digits from there on that make up the number.
pub open spec fn asks_for_tag(l: Seq<u8>, at: int, tag: u16) -> bool {
    &&& 48 <= l[at] <= 57 && 48 <= l[at + 1] <= 57 && 48 <= l[at + 2] <= 57
    &&& 48 <= l[at + 3] <= 57 && 48 <= l[at + 4] <= 57
    &&& tag == 10000 * (l[at] - 48) + 1000 * (l[at + 1] - 48) + 100 * (l[at + 2] - 48) + 10 * (l[at
        + 3] - 48) + (l[at + 4] - 48)
}

proof fn lemma_one_label(a: Seq<u8>, b: Seq<u8>)
    requires
        lower_label(b) == b,
    ensures
        same_name(seq![a], seq![b]) <==> lower_label(a) == b,
{
    let x = crate::name::fold_case(seq![a]);
    let y = crate::name::fold_case(seq![b]);
    assert(x[0] == lower_label(a));
    assert(y[0] == lower_label(b));
    if lower_label(a) == b {
        assert(x =~= y);
    }
}

/// A question about an anchor is answered with a failure and nothing else exactly where
/// its claim does not hold: that an anchor is there which is not, or the other way round.
/// Only validated answers to questions for addresses are touched.
pub proof fn law_claims_about_anchors(
    r: Recursor,
    qname: Seq<Seq<u8>>,
    qtype: u16,
    m: MessageView,
)
    ensures
        ({
            let out = sentinel_applied(r, qname, qtype, m);
            let claim = sentinel_of(qname[0]);
            let there = exists|i: int|
                0 <= i < r.trust_anchors@.len() && (#[trigger] r.trust_anchors@[i]).key_tag
                    == (claim->0).1;
            let asked = r.root_key_sentinel && m.header.authentic_data && (qtype == 1 || qtype
                == 28) && qname.len() > 0 && claim is Some;
            &&& asked && (claim->0).0 != there ==> out.header.rcode == 2
                && !out.header.authentic_data && out.answers.len() == 0 && out.authorities.len()
                == 0 && out.additionals.len() == 0 && out.questions == m.questions && out.header.id
                == m.header.id
            &&& !asked || (claim->0).0 == there ==> out == m
        }),
{
}

/// What becomes of a response that may go out: its records cleaned, its code and question
/// kept, and marked as authentic exactly where validation found it secure.
pub proof fn law_what_may_go_out_goes_out(
    r: Recursor,
    qname: Seq<Seq<u8>>,
    qtype: u16,
    m: MessageView,
    positive: bool,
    status: Option<SecurityStatus>,
    honor_cd: bool,
    leaf: Option<Seq<Seq<u8>>>,
)
    requires
        status matches Some(s) && s is Bogus ==> r.permissive || honor_cd,
        qname.len() > 0 && sentinel_of(qname[0]) is Some ==> !r.root_key_sentinel || status != Some(
            SecurityStatus::Secure,
        ) || (qtype != 1 && qtype != 28),
    ensures
        ({
            let out = terminal_answer(r, qname, qtype, m, positive, status, honor_cd, leaf);
            let clean = sanitized(m, qname, qtype, positive, leaf);
            &&& out.header.rcode == m.header.rcode && out.header.id == m.header.id
            &&& out.header.response && out.header.recursion_available
            &&& out.header.authentic_data <==> status == Some(SecurityStatus::Secure)
            &&& out.questions == m.questions
            &&& out.answers == clean.answers && out.authorities == clean.authorities
            &&& out.additionals == clean.additionals
            &&& !held_back(r, status, honor_cd)
        }),
{
}

/// A bogus response is withheld and counted exactly where neither the resolver nor the
/// client puts up with it.
pub proof fn law_what_is_withheld(r: Recursor, status: Option<SecurityStatus>, honor_cd: bool)
    ensures
        held_back(r, status, honor_cd) <==> {
            &&& status matches Some(SecurityStatus::Bogus(_))
            &&& !r.permissive
            &&& !honor_cd
        },
{
}

/// How the end of the first walk is read. A renaming that grows too long is the answer,
/// with its records and the signatures over them alone; an alias is followed and counted
/// as what it is; all else ends the search, as an answer exactly where the data asked for
/// came without error.
pub proof fn law_how_the_first_response_is_read(
    m: MessageView,
    qname: Seq<Seq<u8>>,
    qtype: u16,
    x: RecordView,
)
    ensures
        dname_overflow(m, qname) ==> (answer_step_of(m, qname, qtype) matches AnswerStepView::Done(
            out,
        ) && out.header.rcode == m.header.rcode && out.header.response && !out.header.authentic_data
            && out.questions == m.questions && out.authorities.len() == 0 && out.additionals.len()
            == 0 && (out.answers.contains(x) <==> m.answers.contains(x) && x.class == 1 && (
        x.rdata is Dname || x.rdata is Rrsig && x.rdata->Rrsig_0.type_covered == 39))),
        !dname_overflow(m, qname) ==> match alias_hop_of(m, qname, qtype) {
            Some(h) => answer_step_of(m, qname, qtype) matches AnswerStepView::Follow {
                hop,
                response,
                cname_depth,
                dname_depth,
            } && hop == h && response == m && (h.atype == 39 ==> cname_depth == 0 && dname_depth
                == 1) && (h.atype != 39 ==> cname_depth == 1 && dname_depth == 0),
            None => answer_step_of(m, qname, qtype) matches AnswerStepView::Terminal {
                response,
                positive,
            } && response == m && (positive <==> m.header.rcode == 0 && direct_answer(
                m,
                qname,
                qtype,
            )),
        },
{
    crate::seqs::lemma_filter_members(m.answers, dname_or_signature(), x);
}

/// How a response behind an alias is read: a renaming from above is followed first, then
/// the data asked for ends the chain, then a denial, then a CNAME is followed. Each step
/// counts once, as what it is.
pub proof fn law_how_a_further_response_is_read(
    m: MessageView,
    qname: Seq<Seq<u8>>,
    qtype: u16,
    cnames: int,
    dnames: int,
)
    ensures
        match (
            dname_rewrite_of(m, qname),
            direct_answer(m, qname, qtype),
            m.header.rcode == 3,
            cname_target_of(m, qname),
        ) {
            (Some(d), _, _, _) => inner_step_of(m, qname, qtype, cnames, dnames)
                matches InnerStepView::Follow {
                target,
                owner,
                atype,
                records,
                cname_depth,
                dname_depth,
            } && target == d.1 && owner == d.0.name && atype == 39 && cname_depth == cnames
                && dname_depth == dnames + 1 && records.len() > 0 && records.last() == d.2,
            (None, true, _, _) => inner_step_of(m, qname, qtype, cnames, dnames)
                == (InnerStepView::Terminal { positive: true }),
            (None, false, false, Some(t)) => inner_step_of(m, qname, qtype, cnames, dnames)
                matches InnerStepView::Follow {
                target,
                owner,
                atype,
                records,
                cname_depth,
                dname_depth,
            } && target == t && owner == qname && atype == 5 && cname_depth == cnames + 1
                && dname_depth == dnames,
            _ => inner_step_of(m, qname, qtype, cnames, dnames) == (InnerStepView::Terminal {
                positive: false,
            }),
        },
{
}

/// The records that go with a step behind an alias are those of the alias at its owner and
/// the signatures over them, and for a renaming the alias that stands for it.
pub proof fn law_the_records_of_a_further_alias(
    m: MessageView,
    qname: Seq<Seq<u8>>,
    qtype: u16,
    x: RecordView,
)
    ensures
        inner_step_of(m, qname, qtype, 0, 0) matches InnerStepView::Follow {
            owner,
            atype,
            records,
            ..
        } ==> (records.contains(x) <==> m.answers.contains(x) && x.class == 1 && (x.rtype == atype
            || x.rtype == 46 && x.rdata is Rrsig && x.rdata->Rrsig_0.type_covered == atype)
            && same_name(x.name, owner) || atype == 39 && dname_rewrite_of(m, qname) is Some && x
            == (dname_rewrite_of(m, qname)->0).2),
{
    if let Some(d) = dname_rewrite_of(m, qname) {
        let set = m.answers.filter(alias_set_at(d.0.name, TYPE_DNAME));
        crate::seqs::lemma_filter_members(m.answers, alias_set_at(d.0.name, TYPE_DNAME), x);
        let all = set.push(d.2);
        assert(all[set.len() as int] == d.2);
        if set.contains(x) {
            let i = choose|i: int| 0 <= i < set.len() && set[i] == x;
            assert(all[i] == x);
        }
        if all.contains(x) && x != d.2 {
            let i = choose|i: int| 0 <= i < all.len() && all[i] == x;
            assert(set[i] == x);
        }
    } else {
        crate::seqs::lemma_filter_members(m.answers, alias_set_at(qname, TYPE_CNAME), x);
    }
}

/// A step along aliases is allowed exactly while neither kind has been taken more often
/// than its limit says.
pub proof fn law_how_many_aliases_are_followed(r: Recursor, cnames: int, dnames: int)
    ensures
        depth_error(r, cnames, dnames) is None <==> cnames <= r.max_cnames && dnames
            <= r.max_dnames,
        cnames > r.max_cnames ==> depth_error(r, cnames, dnames) == Some(
            RecurseError::TooManyCnames,
        ),
        cnames <= r.max_cnames && dnames > r.max_dnames ==> depth_error(r, cnames, dnames) == Some(
            RecurseError::TooManyDnames,
        ),
{
}

/// What stands behind an alias is put behind its records, under the question it was found
/// for; all else is that of what stands behind it.
pub proof fn law_what_stands_behind_an_alias(
    records: Seq<RecordView>,
    questions: Seq<QuestionView>,
    tail: MessageView,
    i: int,
)
    ensures
        ({
            let m = merged(records, questions, tail);
            &&& m.header == tail.header && m.questions == questions
            &&& m.authorities == tail.authorities && m.additionals == tail.additionals
            &&& m.answers.len() == records.len() + tail.answers.len()
            &&& 0 <= i < records.len() ==> m.answers[i] == records[i]
            &&& 0 <= i < tail.answers.len() ==> m.answers[records.len() + i] == tail.answers[i]
        }),
{
}

/// Whichever way a response is looked at, as the first or a further one, the same alias is
/// seen in it, and the same end.
pub proof fn law_readings_agree(
    m: MessageView,
    qname: Seq<Seq<u8>>,
    qtype: u16,
)
    requires
        !dname_overflow(m, qname),
        m.header.rcode == 0,
    ensures
        reading_of(true, m, qname, qtype) == reading_of(false, m, qname, qtype),
{
}

/// The two readings differ where they have to: only the first response to a question ends it
/// by saying that a renamed name would be too long, and only there is an answer under an
/// error code not taken for an answer. Behind an alias the data decides.
pub proof fn law_where_the_readings_differ(
    m: MessageView,
    qname: Seq<Seq<u8>>,
    qtype: u16,
)
    ensures
        reading_of(true, m, qname, qtype) is Answer <==> dname_overflow(m, qname),
        !(reading_of(false, m, qname, qtype) is Answer),
        !dname_overflow(m, qname) && alias_hop_of(m, qname, qtype) is None ==> reading_of(
            true,
            m,
            qname,
            qtype,
        ) == (Reading::End { positive: m.header.rcode == 0 && direct_answer(m, qname, qtype) }),
        !dname_overflow(m, qname) ==> (alias_hop_of(m, qname, qtype) matches Some(h) ==> reading_of(
            true,
            m,
            qname,
            qtype,
        ) == Reading::Follow(h)),
        dname_rewrite_of(m, qname) is None && direct_answer(m, qname, qtype) ==> reading_of(
            false,
            m,
            qname,
            qtype,
        ) == (Reading::End { positive: true }),
        dname_rewrite_of(m, qname) is None && !direct_answer(m, qname, qtype) && (m.header.rcode == 3
            || cname_target_of(m, qname) is None) ==> reading_of(false, m, qname, qtype) == (
        Reading::End { positive: false }),
{
}

} // verus!
