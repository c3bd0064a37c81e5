//! How an answer is cut down until it fits in a datagram.

use vstd::prelude::*;

use crate::limits::clamped;
use crate::message::{
    blank_header, blank_message, first_edns, Header, Message, MessageView, Record,
    RecordView, RCODE_SERVFAIL,
};
use crate::seqs::{replicate_all, Replicate};

verus! {

/// The largest answer in a datagram, whatever the client offers.
pub const SERVER_UDP_MAX: usize = 1232;

/// The largest answer to a query that offers no size.
pub const NON_EDNS_UDP_MAX: usize = 512;

/// The forms of an answer, from the whole of it to the least that can be said.
#[derive(Clone, Copy, PartialEq, Eq, Structural, Debug)]
pub enum LadderStage {
    Whole,
    /// Marked as cut short: the question and the EDNS record alone.
    Truncated,
    /// The same without the EDNS record.
    NoAdditionals,
    /// The same without the question.
    HeaderOnly,
    /// A server failure without anything in it.
    Failure,
}

/// The answer that is sent where no other can be written: a server failure with
/// no section in it.
pub open spec fn failure_of(request: MessageView) -> MessageView {
    MessageView {
        header: Header {
            id: request.header.id,
            response: true,
            opcode: request.header.opcode,
            recursion_desired: request.header.recursion_desired,
            checking_disabled: request.header.checking_disabled,
            rcode: RCODE_SERVFAIL,
            ..blank_header()
        },
        ..blank_message()
    }
}

pub fn encoding_failure_response(request: &Message) -> (r: Message)
    ensures
        r@ == failure_of(request@),
{
    let mut response = Message::default();
    response.header.id = request.header.id;
    response.header.response = true;
    response.header.opcode = request.header.opcode;
    response.header.recursion_desired = request.header.recursion_desired;
    response.header.checking_disabled = request.header.checking_disabled;
    response.header.rcode = RCODE_SERVFAIL;
    response
}

/// The header of an answer that was cut short: what it says stays the same.
pub open spec fn truncated_header(request: Header, whole: Header) -> Header {
    Header {
        id: request.id,
        response: true,
        opcode: request.opcode,
        authoritative: whole.authoritative,
        truncated: true,
        recursion_desired: request.recursion_desired,
        recursion_available: whole.recursion_available,
        authentic_data: whole.authentic_data,
        checking_disabled: request.checking_disabled,
        rcode: whole.rcode,
    }
}

pub open spec fn truncated_of(request: MessageView, whole: MessageView) -> MessageView {
    MessageView {
        header: truncated_header(request.header, whole.header),
        questions: request.questions,
        additionals: match first_opt_record(whole.additionals) {
            Some(r) => seq![r],
            None => Seq::empty(),
        },
        ..blank_message()
    }
}

/// The first EDNS record as it stands.
pub open spec fn first_opt_record(records: Seq<RecordView>) -> Option<RecordView>
    decreases records.len(),
{
    if records.len() == 0 {
        None
    } else if records[0].rdata is Opt {
        Some(records[0])
    } else {
        first_opt_record(records.skip(1))
    }
}

fn find_opt(records: &Vec<Record>) -> (r: Option<usize>)
    ensures
        r matches Some(i) ==> i < records@.len() && first_opt_record(
            crate::seqs::views(records@),
        ) == Some(records@[i as int]@),
        r is None ==> first_opt_record(crate::seqs::views(records@)) is None,
{
    let ghost all = crate::seqs::views(records@);
    let mut i: usize = 0;
    assert(all.skip(0) =~= all);
    while i < records.len()
        invariant
            i <= records@.len(),
            all == crate::seqs::views(records@),
            first_opt_record(all) == first_opt_record(all.skip(i as int)),
        decreases records.len() - i,
    {
        proof {
            let rest = all.skip(i as int);
            assert(rest[0] == records@[i as int]@);
            assert(rest.skip(1) =~= all.skip(i + 1));
        }
        if let crate::message::RData::Opt(_) = &records[i].rdata {
            return Some(i);
        }
        i = i + 1;
    }
    None
}

/// The answer cut short: it asks the client to come again over a stream. The
/// verdict and the flags are those of the whole answer.
pub fn truncated(request: &Message, whole: &Message) -> (r: Message)
    ensures
        r@ == truncated_of(request@, whole@),
{
    let mut m = Message::default();
    m.header = Header {
        id: request.header.id,
        response: true,
        opcode: request.header.opcode,
        authoritative: whole.header.authoritative,
        truncated: true,
        recursion_desired: request.header.recursion_desired,
        recursion_available: whole.header.recursion_available,
        authentic_data: whole.header.authentic_data,
        checking_disabled: request.header.checking_disabled,
        rcode: whole.header.rcode,
    };
    m.questions = replicate_all(&request.questions);
    if let Some(i) = find_opt(&whole.additionals) {
        m.additionals.push(whole.additionals[i].replicate());
        assert(m@.additionals =~= seq![whole.additionals@[i as int]@]);
    }
    m
}

/// The largest answer to a request: what it offers, within bounds, or the size
/// without EDNS where it offers nothing.
pub open spec fn udp_limit(request: MessageView) -> int {
    match first_edns(request.additionals) {
        Some(e) => clamped(e.udp_payload as int, NON_EDNS_UDP_MAX as int, SERVER_UDP_MAX as int),
        None => NON_EDNS_UDP_MAX as int,
    }
}

pub fn max_udp(request: &Message) -> (r: usize)
    ensures
        r == udp_limit(request@),
{
    match request.opt() {
        Some(e) => {
            let n: usize = e.udp_payload as usize;
            if n < NON_EDNS_UDP_MAX {
                NON_EDNS_UDP_MAX
            } else if n > SERVER_UDP_MAX {
                SERVER_UDP_MAX
            } else {
                n
            }
        },
        None => NON_EDNS_UDP_MAX,
    }
}

/// The form of the answer at a stage.
pub open spec fn form_at(stage: LadderStage, request: MessageView, response: MessageView) -> MessageView {
    match stage {
        LadderStage::Whole => response,
        LadderStage::Truncated => truncated_of(request, response),
        LadderStage::NoAdditionals => MessageView {
            additionals: Seq::empty(),
            ..truncated_of(request, response)
        },
        LadderStage::HeaderOnly => MessageView {
            additionals: Seq::empty(),
            questions: Seq::empty(),
            ..truncated_of(request, response)
        },
        LadderStage::Failure => failure_of(request),
    }
}

/// The message to encode at a stage.
pub fn encode_form(stage: LadderStage, request: &Message, response: &Message) -> (r: Message)
    ensures
        r@ == form_at(stage, request@, response@),
{
    match stage {
        LadderStage::Whole => response.replicate(),
        LadderStage::Truncated => truncated(request, response),
        LadderStage::NoAdditionals => {
            let mut m = truncated(request, response);
            m.additionals = Vec::new();
            assert(m@.additionals =~= Seq::<RecordView>::empty());
            m
        },
        LadderStage::HeaderOnly => {
            let mut m = truncated(request, response);
            m.additionals = Vec::new();
            m.questions = Vec::new();
            assert(m@.additionals =~= Seq::<RecordView>::empty());
            assert(m@.questions =~= Seq::<crate::message::QuestionView>::empty());
            m
        },
        LadderStage::Failure => encoding_failure_response(request),
    }
}

/// Where to go on when the form of a stage took `encoded` octets, or could not be
/// encoded. None: it is sent.
pub open spec fn stage_after(stage: LadderStage, encoded: Option<int>, limit: int) -> Option<
    LadderStage,
> {
    let fits = encoded matches Some(n) && n <= limit;
    match stage {
        LadderStage::Whole => if fits {
            None
        } else {
            Some(LadderStage::Truncated)
        },
        LadderStage::Truncated => if fits {
            None
        } else {
            Some(LadderStage::NoAdditionals)
        },
        LadderStage::NoAdditionals => if fits {
            None
        } else {
            Some(LadderStage::HeaderOnly)
        },
        LadderStage::HeaderOnly => if encoded is Some {
            None
        } else {
            Some(LadderStage::Failure)
        },
        LadderStage::Failure => None,
    }
}

pub open spec fn as_int(n: Option<usize>) -> Option<int> {
    match n {
        Some(n) => Some(n as int),
        None => None,
    }
}

/// One step down the ladder, under a limit that is given.
pub fn encode_within(stage: LadderStage, encoded: Option<usize>, limit: usize) -> (r: Option<
    LadderStage,
>)
    ensures
        r == stage_after(stage, as_int(encoded), limit as int),
{
    let fits: bool = match encoded {
        Some(n) => n <= limit,
        None => false,
    };
    match stage {
        LadderStage::Whole => if fits {
            None
        } else {
            Some(LadderStage::Truncated)
        },
        LadderStage::Truncated => if fits {
            None
        } else {
            Some(LadderStage::NoAdditionals)
        },
        LadderStage::NoAdditionals => if fits {
            None
        } else {
            Some(LadderStage::HeaderOnly)
        },
        LadderStage::HeaderOnly => match encoded {
            Some(_) => None,
            None => Some(LadderStage::Failure),
        },
        LadderStage::Failure => None,
    }
}

/// One step down the ladder, under the limit that the request negotiated.
pub fn encode_limited(stage: LadderStage, encoded: Option<usize>, request: &Message) -> (r: Option<
    LadderStage,
>)
    ensures
        r == stage_after(stage, as_int(encoded), udp_limit(request@)),
{
    encode_within(stage, encoded, max_udp(request))
}

pub open spec fn rank(stage: LadderStage) -> nat {
    match stage {
        LadderStage::Whole => 4,
        LadderStage::Truncated => 3,
        LadderStage::NoAdditionals => 2,
        LadderStage::HeaderOnly => 1,
        LadderStage::Failure => 0,
    }
}

/// The stage whose form is sent, for an encoder that takes `size(stage)` octets.
pub open spec fn sent_stage(
    stage: LadderStage,
    size: spec_fn(LadderStage) -> Option<int>,
    limit: int,
) -> LadderStage
    decreases rank(stage),
{
    match stage_after(stage, size(stage), limit) {
        None => stage,
        Some(next) => if rank(next) < rank(stage) {
            sent_stage(next, size, limit)
        } else {
            stage
        },
    }
}

/// Where a message of a header alone takes 12 octets and the failure can always be
/// encoded, something is sent, and it is within the limit.
pub proof fn law_what_is_sent_fits(
    stage: LadderStage,
    size: spec_fn(LadderStage) -> Option<int>,
    limit: int,
)
    requires
        limit >= 12,
        size(LadderStage::HeaderOnly) matches Some(n) ==> n == 12,
        size(LadderStage::Failure) == Some(12int),
    ensures
        size(sent_stage(stage, size, limit)) matches Some(n) && n <= limit,
    decreases rank(stage),
{
    match stage_after(stage, size(stage), limit) {
        None => {},
        Some(next) => {
            law_what_is_sent_fits(next, size, limit);
        },
    }
}

/// The limit of a datagram always leaves room for a header.
pub proof fn law_the_limit_is_within_its_bounds(request: MessageView)
    ensures
        NON_EDNS_UDP_MAX <= udp_limit(request) <= SERVER_UDP_MAX,
{
}

/// Cutting an answer short changes its size, not what it says: the code, the
/// flags and the number stay, and the client is told to ask again.
pub proof fn law_cutting_short_keeps_the_verdict(
    stage: LadderStage,
    request: MessageView,
    response: MessageView,
)
    requires
        stage is Truncated || stage is NoAdditionals || stage is HeaderOnly,
    ensures
        ({
            let m = form_at(stage, request, response);
            &&& m.header.rcode == response.header.rcode
            &&& m.header.authentic_data == response.header.authentic_data
            &&& m.header.authoritative == response.header.authoritative
            &&& m.header.id == request.header.id
            &&& m.header.truncated
            &&& m.header.response
            &&& m.answers.len() == 0
        }),
{
}

/// An answer goes out in the fullest form that fits: whole where that fits, and cut one
/// step further only where no earlier form does. A header alone is sent wherever it can be
/// encoded, and the bare failure only where nothing else can.
pub proof fn law_the_fullest_form_that_fits_is_sent(
    size: spec_fn(LadderStage) -> Option<int>,
    limit: int,
)
    ensures
        ({
            let sent = sent_stage(LadderStage::Whole, size, limit);
            let whole = size(LadderStage::Whole) matches Some(n) && n <= limit;
            let short = size(LadderStage::Truncated) matches Some(n) && n <= limit;
            let bare = size(LadderStage::NoAdditionals) matches Some(n) && n <= limit;
            let header = size(LadderStage::HeaderOnly) is Some;
            &&& sent is Whole <==> whole
            &&& sent is Truncated <==> !whole && short
            &&& sent is NoAdditionals <==> !whole && !short && bare
            &&& sent is HeaderOnly <==> !whole && !short && !bare && header
            &&& sent is Failure <==> !whole && !short && !bare && !header
        }),
{
    reveal_with_fuel(sent_stage, 6);
}

/// Each step down is to the next smaller form, and nothing is tried once a form fits.
pub proof fn law_one_step_down_at_a_time(n: int, limit: int)
    requires
        0 <= n <= limit,
    ensures
        stage_after(LadderStage::Whole, Some(n), limit) is None,
        stage_after(LadderStage::Truncated, Some(n), limit) is None,
        stage_after(LadderStage::NoAdditionals, Some(n), limit) is None,
        stage_after(LadderStage::HeaderOnly, Some(n), limit) is None,
        stage_after(LadderStage::Whole, Some(limit + 1), limit) == Some(LadderStage::Truncated),
        stage_after(LadderStage::Truncated, Some(limit + 1), limit) == Some(
            LadderStage::NoAdditionals,
        ),
        stage_after(LadderStage::NoAdditionals, Some(limit + 1), limit) == Some(
            LadderStage::HeaderOnly,
        ),
        stage_after(LadderStage::Whole, None, limit) == Some(LadderStage::Truncated),
        stage_after(LadderStage::Truncated, None, limit) == Some(LadderStage::NoAdditionals),
        stage_after(LadderStage::NoAdditionals, None, limit) == Some(LadderStage::HeaderOnly),
        stage_after(LadderStage::HeaderOnly, None, limit) == Some(LadderStage::Failure),
        stage_after(LadderStage::Failure, None, limit) is None,
        stage_after(LadderStage::Failure, Some(n), limit) is None,
{
}

/// What each form holds: the whole answer is sent as it is; cut short it keeps the
/// question of the request and the first EDNS record of the answer and drops every other
/// record, then also that record, then also the question. The failure answers the request
/// with the code 2 and nothing else.
pub proof fn law_what_each_form_holds(request: MessageView, response: MessageView)
    ensures
        form_at(LadderStage::Whole, request, response) == response,
        ({
            let m = form_at(LadderStage::Truncated, request, response);
            let extra = response.additionals;
            &&& m.questions == request.questions
            &&& m.answers.len() == 0
            &&& m.authorities.len() == 0
            &&& m.header.opcode == request.header.opcode
            &&& m.header.recursion_desired == request.header.recursion_desired
            &&& m.header.checking_disabled == request.header.checking_disabled
            &&& m.header.recursion_available == response.header.recursion_available
            &&& (forall|i: int| 0 <= i < extra.len() ==> !((#[trigger] extra[i]).rdata is Opt))
                ==> m.additionals.len() == 0
            &&& forall|i: int|
                0 <= i < extra.len() && (#[trigger] extra[i]).rdata is Opt && (forall|j: int|
                    0 <= j < i ==> !((#[trigger] extra[j]).rdata is Opt)) ==> m.additionals
                    == seq![extra[i]]
        }),
        ({
            let m = form_at(LadderStage::NoAdditionals, request, response);
            &&& m.questions == request.questions
            &&& m.answers.len() == 0
            &&& m.authorities.len() == 0
            &&& m.additionals.len() == 0
        }),
        ({
            let m = form_at(LadderStage::HeaderOnly, request, response);
            &&& m.questions.len() == 0
            &&& m.answers.len() == 0
            &&& m.authorities.len() == 0
            &&& m.additionals.len() == 0
        }),
        ({
            let m = form_at(LadderStage::Failure, request, response);
            &&& m.questions.len() == 0
            &&& m.answers.len() == 0
            &&& m.authorities.len() == 0
            &&& m.additionals.len() == 0
            &&& m.header.rcode == 2
            &&& m.header.response
            &&& !m.header.authoritative
            &&& !m.header.truncated
            &&& !m.header.authentic_data
            &&& m.header.id == request.header.id
            &&& m.header.opcode == request.header.opcode
            &&& m.header.recursion_desired == request.header.recursion_desired
            &&& m.header.checking_disabled == request.header.checking_disabled
        }),
{
    let extra = response.additionals;
    if forall|i: int| 0 <= i < extra.len() ==> !((#[trigger] extra[i]).rdata is Opt) {
        lemma_no_opt(extra);
    }
    assert forall|i: int|
        0 <= i < extra.len() && (#[trigger] extra[i]).rdata is Opt && (forall|j: int|
            0 <= j < i ==> !((#[trigger] extra[j]).rdata is Opt)) implies form_at(
        LadderStage::Truncated,
        request,
        response,
    ).additionals == seq![extra[i]] by {
        lemma_first_opt(extra, i);
    }
}

proof fn lemma_no_opt(records: Seq<RecordView>)
    requires
        forall|i: int| 0 <= i < records.len() ==> !((#[trigger] records[i]).rdata is Opt),
    ensures
        first_opt_record(records) is None,
    decreases records.len(),
{
    if records.len() > 0 {
        let rest = records.skip(1);
        assert forall|i: int| 0 <= i < rest.len() implies !((#[trigger] rest[i]).rdata is Opt) by {
            assert(rest[i] == records[i + 1]);
        }
        lemma_no_opt(rest);
    }
}

proof fn lemma_first_opt(records: Seq<RecordView>, i: int)
    requires
        0 <= i < records.len(),
        records[i].rdata is Opt,
        forall|j: int| 0 <= j < i ==> !((#[trigger] records[j]).rdata is Opt),
    ensures
        first_opt_record(records) == Some(records[i]),
    decreases i,
{
    if i > 0 {
        let rest = records.skip(1);
        assert(!(records[0].rdata is Opt));
        assert(rest[i - 1] == records[i]);
        assert forall|j: int| 0 <= j < i - 1 implies !((#[trigger] rest[j]).rdata is Opt) by {
            assert(rest[j] == records[j + 1]);
        }
        lemma_first_opt(rest, i - 1);
    }
}

/// A request that offers no size gets 512 octets; one that offers a size gets that size,
/// but no fewer than 512 octets and no more than 1232.
pub proof fn law_how_large_a_datagram_may_be(request: MessageView)
    ensures
        first_edns(request.additionals) is None ==> udp_limit(request) == 512,
        first_edns(request.additionals) matches Some(e) ==> {
            &&& e.udp_payload <= 512 ==> udp_limit(request) == 512
            &&& 512 <= e.udp_payload <= 1232 ==> udp_limit(request) == e.udp_payload
            &&& e.udp_payload >= 1232 ==> udp_limit(request) == 1232
        },
{
}

} // verus!
