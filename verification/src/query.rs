//! Queries that go upstream, and the answer that stands for a failed
//! validation.

use vstd::prelude::*;

use crate::message::{
    blank_header, blank_message, edns_record, in_question, Edns, EdnsOption, EdnsOptionView,
    EdnsView, Header, Message, MessageView, Question, CLASS_IN, EDE_UNSUPPORTED_NSEC3_ITERATIONS,
    OPTION_EDE, RCODE_SERVFAIL,
};
use crate::name::{
    cased_name, fold_case, randomize_letters, same_name, Name,
};
use crate::seqs::replicate_all;

verus! {

/// The payload size that queries announce.
pub const QUERY_UDP_PAYLOAD: u16 = 1232;

pub open spec fn query_edns(do_bit: bool) -> EdnsView {
    EdnsView {
        udp_payload: QUERY_UDP_PAYLOAD,
        extended_rcode: 0,
        version: 0,
        dnssec_ok: do_bit,
        options: Seq::empty(),
    }
}

/// A query for upstream: one question, no wish for recursion, and an EDNS
/// record.
pub open spec fn query_message(qname: Seq<Seq<u8>>, qtype: u16, do_bit: bool) -> MessageView {
    MessageView {
        questions: seq![in_question(qname, qtype)],
        additionals: seq![edns_record(query_edns(do_bit))],
        ..blank_message()
    }
}

pub fn make_query(qname: &Name, qtype: u16, do_bit: bool) -> (r: Message)
    ensures
        r@ == query_message(qname@, qtype, do_bit),
{
    let mut m = Message::default();
    m.questions.push(Question { name: qname.clone(), qtype, qclass: CLASS_IN });
    let edns = Edns {
        udp_payload: QUERY_UDP_PAYLOAD,
        extended_rcode: 0,
        version: 0,
        dnssec_ok: do_bit,
        options: Vec::new(),
    };
    assert(edns@.options =~= Seq::<EdnsOptionView>::empty());
    m.additionals.push(edns.to_record());
    assert(m@.questions =~= seq![in_question(qname@, qtype)]);
    assert(m@.additionals =~= seq![edns_record(query_edns(do_bit))]);
    m
}

/// "NSEC3 iterations above local limit"
pub open spec fn text_nsec3_iterations() -> Seq<u8> {
    seq![
        78, 83, 69, 67, 51, 32, 105, 116, 101, 114, 97, 116, 105, 111, 110, 115, 32, 97, 98, 111,
        118, 101, 32, 108, 111, 99, 97, 108, 32, 108, 105, 109, 105, 116,
    ]
}

/// "DNSSEC validation failed"
pub open spec fn text_validation_failed() -> Seq<u8> {
    seq![
        68, 78, 83, 83, 69, 67, 32, 118, 97, 108, 105, 100, 97, 116, 105, 111, 110, 32, 102, 97,
        105, 108, 101, 100,
    ]
}

pub open spec fn ede_text(code: u16) -> Seq<u8> {
    if code == EDE_UNSUPPORTED_NSEC3_ITERATIONS {
        text_nsec3_iterations()
    } else {
        text_validation_failed()
    }
}

/// The words that go with an extended error: one text where the computation
/// was refused, another where a signature or proof is broken.
pub fn ede_text_for(code: u16) -> (r: Vec<u8>)
    ensures
        r@ == ede_text(code),
{
    if code == EDE_UNSUPPORTED_NSEC3_ITERATIONS {
        let r: Vec<u8> = vec![
            78, 83, 69, 67, 51, 32, 105, 116, 101, 114, 97, 116, 105, 111, 110, 115, 32, 97, 98,
            111, 118, 101, 32, 108, 111, 99, 97, 108, 32, 108, 105, 109, 105, 116,
        ];
        assert(r@ =~= text_nsec3_iterations());
        r
    } else {
        let r: Vec<u8> = vec![
            68, 78, 83, 83, 69, 67, 32, 118, 97, 108, 105, 100, 97, 116, 105, 111, 110, 32, 102,
            97, 105, 108, 101, 100,
        ];
        assert(r@ =~= text_validation_failed());
        r
    }
}

/// How many responses a failed validation has held back.
#[derive(Clone, Copy, PartialEq, Eq, Structural, Debug)]
pub struct ValidationCounter {
    pub bogus_total: u64,
}

impl Default for ValidationCounter {
    fn default() -> (r: Self)
        ensures
            r.bogus_total == 0,
    {
        ValidationCounter { bogus_total: 0 }
    }
}

/// The number of failed validations so far.
pub fn validation_bogus_total(counter: &ValidationCounter) -> (r: u64)
    ensures
        r == counter.bogus_total,
{
    counter.bogus_total
}

/// One more, starting over at zero after the largest number.
pub open spec fn counted(n: u64) -> u64 {
    if n == u64::MAX {
        0
    } else {
        (n + 1) as u64
    }
}

/// The number after that many more.
pub open spec fn counted_times(n: u64, times: nat) -> u64
    decreases times,
{
    if times == 0 {
        n
    } else {
        counted(counted_times(n, (times - 1) as nat))
    }
}

/// Every failed validation counts exactly once. Two who count by turns at one counter,
/// `a` times and `b` times, lose none of each other's counts.
pub proof fn law_every_failure_counts_once(n: u64, a: nat, b: nat)
    ensures
        n + a <= u64::MAX ==> counted_times(n, a) == n + a,
        counted_times(counted_times(n, a), b) == counted_times(n, a + b),
    decreases a + b,
{
    if b > 0 {
        law_every_failure_counts_once(n, a, (b - 1) as nat);
    } else if a > 0 {
        law_every_failure_counts_once(n, (a - 1) as nat, 0);
    }
}

/// Counts one failed validation.
pub fn record_validation_bogus(counter: &mut ValidationCounter)
    ensures
        final(counter).bogus_total == counted(old(counter).bogus_total),
{
    counter.bogus_total = if counter.bogus_total == u64::MAX {
        0
    } else {
        counter.bogus_total + 1
    };
}

/// An extended error as an option: the code in network order, then the text.
pub open spec fn ede_option(code: u16) -> EdnsOptionView {
    EdnsOptionView {
        code: OPTION_EDE,
        data: seq![(code / 256) as u8, (code % 256) as u8] + ede_text(code),
    }
}

/// The EDNS record beside a failed validation: all defaults, and the reason.
pub open spec fn bogus_edns(ede: u16) -> EdnsView {
    EdnsView {
        udp_payload: QUERY_UDP_PAYLOAD,
        extended_rcode: 0,
        version: 0,
        dnssec_ok: false,
        options: seq![ede_option(ede)],
    }
}

/// A server failure that keeps the question and the identifier of `template`
/// and none of its records.
pub open spec fn bogus_servfail_of(template: MessageView, ede: u16) -> MessageView {
    MessageView {
        header: Header { id: template.header.id, rcode: RCODE_SERVFAIL, ..blank_header() },
        questions: template.questions,
        additionals: seq![edns_record(bogus_edns(ede))],
        ..blank_message()
    }
}

/// Turns a response that failed validation into a server failure, and counts
/// it.
pub fn bogus_servfail(
    template: &Message,
    ede: u16,
    counter: &mut ValidationCounter,
) -> (r: Message)
    ensures
        r@ == bogus_servfail_of(template@, ede),
        final(counter).bogus_total == counted(old(counter).bogus_total),
{
    record_validation_bogus(counter);
    let mut sf = Message::default();
    sf.header.id = template.header.id;
    sf.header.rcode = RCODE_SERVFAIL;
    sf.questions = replicate_all(&template.questions);
    let mut data: Vec<u8> = Vec::new();
    data.push((ede / 256) as u8);
    data.push((ede % 256) as u8);
    let mut text = ede_text_for(ede);
    data.append(&mut text);
    let mut options: Vec<EdnsOption> = Vec::new();
    options.push(EdnsOption { code: OPTION_EDE, data });
    let edns = Edns {
        udp_payload: QUERY_UDP_PAYLOAD,
        extended_rcode: 0,
        version: 0,
        dnssec_ok: false,
        options,
    };
    proof {
        assert(edns@.options[0].data =~= ede_option(ede).data);
        assert(edns@.options =~= seq![ede_option(ede)]);
    }
    sf.additionals.push(edns.to_record());
    assert(sf@.additionals =~= seq![edns_record(bogus_edns(ede))]);
    sf
}

/// The name with its letters in random case: bit `k` of `bits`, from the least
/// significant one of each octet, makes the letter number `k` a capital.
pub fn randomize_name_case(name: &Name, bits: &[u8; 32]) -> (r: Name)
    ensures
        r@ == cased_name(name@, bits@),
        same_name(r@, name@),
{
    randomize_letters(name, bits)
}

/// The name in lower case.
pub fn lowercase_name(name: &Name) -> (r: Name)
    ensures
        r@ == fold_case(name@),
        same_name(r@, name@),
{
    let r = name.canonical_key();
    proof {
        crate::name::lemma_fold_idempotent(name@);
    }
    r
}

/// A query asks for exactly one name and type, of the Internet class, with no flag set,
/// and offers room for 1232 octets; it asks for signatures exactly where it is told to.
pub proof fn law_what_a_query_holds(qname: Seq<Seq<u8>>, qtype: u16, do_bit: bool)
    ensures
        ({
            let m = query_message(qname, qtype, do_bit);
            &&& m.questions.len() == 1
            &&& m.questions[0].name == qname && m.questions[0].qtype == qtype
                && m.questions[0].qclass == 1
            &&& m.answers.len() == 0 && m.authorities.len() == 0 && m.additionals.len() == 1
            &&& !m.header.response && !m.header.recursion_desired && !m.header.checking_disabled
            &&& m.header.opcode == 0 && m.header.rcode == 0
            &&& crate::message::first_edns(m.additionals) matches Some(e) && e.udp_payload == 1232
                && e.dnssec_ok == do_bit && e.options.len() == 0 && e.version == 0
        }),
{
    reveal_with_fuel(crate::message::first_edns, 2);
}

/// The failure that stands for a bogus answer: the client's question under its number, the
/// code of a server failure, no record of the answer, and one extended error with the
/// code that was found, high octet first.
pub proof fn law_what_a_bogus_answer_becomes(m: MessageView, ede: u16)
    ensures
        ({
            let f = bogus_servfail_of(m, ede);
            &&& f.header.id == m.header.id && f.header.rcode == 2 && f.questions == m.questions
            &&& !f.header.authentic_data && !f.header.authoritative
            &&& f.answers.len() == 0 && f.authorities.len() == 0 && f.additionals.len() == 1
            &&& crate::message::first_edns(f.additionals) matches Some(e)
                && crate::message::first_ede(e.options) matches Some(x) && x.0 == ede && x.1.len()
                > 0
        }),
        ede_text(27) != ede_text(6),
        ede != 27 ==> ede_text(ede) == ede_text(6),
{
    reveal_with_fuel(crate::message::first_edns, 2);
    reveal_with_fuel(crate::message::first_ede, 2);
    let o = ede_option(ede);
    assert(o.data[0] == ede / 256 && o.data[1] == ede % 256);
    assert(o.data.skip(2) =~= ede_text(ede));
    assert(ede_text(27).len() == 34);
    assert(ede_text(6).len() == 24);
}

} // verus!
