//! What a response says about a question: answer, alias, denial or referral,
//! and which of its records may be believed.

use vstd::prelude::*;

use crate::message::{
    in_record, Message, MessageView, Question, QuestionView, RData, RDataView, Record, RecordView,
    CLASS_IN, RCODE_FORMERR, RCODE_NOERROR, RCODE_NOTIMP, RCODE_NXDOMAIN, RCODE_REFUSED,
    RCODE_SERVFAIL, RCODE_YXDOMAIN, TYPE_ANY, TYPE_CNAME, TYPE_DNAME, TYPE_NS, TYPE_NSEC,
    TYPE_NSEC3, TYPE_OPT, TYPE_RRSIG, TYPE_SOA,
};
use crate::name::{labels_view, last_labels, octets_alike, same_name, valid_name, within, Name};
use crate::seqs::{
    all_elements, all_of, any_element, any_of, keep_only, lemma_filter_holds, lemma_filter_members,
    lemma_views_push, pick, views, Replicate,
};

verus! {

/// A candidate zone is closer to the question than the current one: it lies
/// below it, strictly.
pub open spec fn closer(candidate: Seq<Seq<u8>>, current: Seq<Seq<u8>>) -> bool {
    candidate.len() > current.len() && within(candidate, current)
}

/// Whether `name` is `zone` or lies below it.
pub fn is_within(name: &Name, zone: &Name) -> (r: bool)
    ensures
        r == within(name@, zone@),
{
    name.ends_with_ignore_case(zone)
}

/// Whether `cand` lies strictly below `cur`: one of the two conditions under
/// which a referral is followed.
pub fn is_closer(cand: &Name, cur: &Name) -> (r: bool)
    ensures
        r == closer(cand@, cur@),
{
    cand.num_labels() > cur.num_labels() && is_within(cand, cur)
}

pub open spec fn min_ttl(left: Option<u32>, right: Option<u32>) -> Option<u32> {
    match (left, right) {
        (Some(a), Some(b)) => Some(if a <= b {
            a
        } else {
            b
        }),
        (Some(a), None) => Some(a),
        (None, b) => b,
    }
}

/// The smaller of two lifetimes; where one is missing, the other.
pub fn min_optional_ttl(left: Option<u32>, right: Option<u32>) -> (r: Option<u32>)
    ensures
        r == min_ttl(left, right),
{
    match (left, right) {
        (Some(a), Some(b)) => Some(
            if a <= b {
                a
            } else {
                b
            },
        ),
        (Some(a), None) => Some(a),
        (None, b) => b,
    }
}

/// The smallest lifetime among the records.
pub open spec fn least_ttl(s: Seq<RecordView>) -> Option<u32>
    decreases s.len(),
{
    if s.len() == 0 {
        None
    } else {
        min_ttl(least_ttl(s.drop_last()), Some(s.last().ttl))
    }
}

/// The smallest lifetime bounds every record, and one record has it.
pub proof fn lemma_least_ttl(s: Seq<RecordView>)
    ensures
        s.len() == 0 <==> least_ttl(s) is None,
        forall|i: int| 0 <= i < s.len() ==> least_ttl(s)->0 <= (#[trigger] s[i]).ttl,
        s.len() > 0 ==> exists|i: int| 0 <= i < s.len() && least_ttl(s)->0 == (#[trigger] s[i]).ttl,
    decreases s.len(),
{
    if s.len() > 0 {
        let m = s.drop_last();
        lemma_least_ttl(m);
        assert forall|i: int| 0 <= i < s.len() implies least_ttl(s)->0 <= (#[trigger] s[i]).ttl by {
            if i < m.len() {
                assert(m[i] == s[i]);
            }
        }
        if m.len() > 0 {
            let k = choose|k: int| 0 <= k < m.len() && least_ttl(m)->0 == (#[trigger] m[k]).ttl;
            assert(m[k] == s[k]);
        }
        assert(s[s.len() - 1] == s.last());
    }
}

pub(crate) fn least_ttl_of(v: &Vec<Record>) -> (r: Option<u32>)
    ensures
        r == least_ttl(views(v@)),
{
    let mut r: Option<u32> = None;
    let mut i: usize = 0;
    assert(views(v@).take(0) =~= Seq::<RecordView>::empty());
    while i < v.len()
        invariant
            i <= v.len(),
            r == least_ttl(views(v@).take(i as int)),
        decreases v.len() - i,
    {
        r = min_optional_ttl(r, Some(v[i].ttl));
        proof {
            let next = views(v@).take(i + 1);
            assert(next.drop_last() =~= views(v@).take(i as int));
            assert(next.last() == v@[i as int]@);
        }
        i = i + 1;
    }
    assert(views(v@).take(v@.len() as int) =~= views(v@));
    r
}

/// An Internet-class name server record owned by `zone`.
pub open spec fn ns_at(zone: Seq<Seq<u8>>) -> spec_fn(RecordView) -> bool {
    |r: RecordView| r.class == CLASS_IN && r.rtype == TYPE_NS && same_name(r.name, zone)
}

/// The smallest lifetime of the zone's name server records in the authority
/// section: how long the delegation may be kept.
pub fn min_ns_ttl(resp: &Message, zone: &Name) -> (r: Option<u32>)
    ensures
        r == least_ttl(resp@.authorities.filter(ns_at(zone@))),
{
    let found = pick(
        &resp.authorities,
        |r: &Record| -> (b: bool)
            ensures
                b == ns_at(zone@)(r@)
            { r.class == CLASS_IN && r.rtype == TYPE_NS && r.name.eq_ignore_case(zone) },
        Ghost(ns_at(zone@)),
    );
    least_ttl_of(&found)
}

/// The record with the longest owner among those that satisfy `p`; the first
/// one where several are as long.
pub open spec fn deepest(s: Seq<RecordView>, p: spec_fn(RecordView) -> bool) -> Option<RecordView>
    decreases s.len(),
{
    if s.len() == 0 {
        None
    } else {
        let before = deepest(s.drop_last(), p);
        let r = s.last();
        if p(r) && (before is None || before->0.name.len() < r.name.len()) {
            Some(r)
        } else {
            before
        }
    }
}

/// No record that satisfies the condition has a longer owner than the one
/// that is chosen, and one is chosen wherever any satisfies it.
pub proof fn law_deepest_owner_wins(s: Seq<RecordView>, p: spec_fn(RecordView) -> bool)
    ensures
        any_of(s, p) <==> deepest(s, p) is Some,
        deepest(s, p) matches Some(d) ==> s.contains(d) && p(d),
        forall|i: int|
            0 <= i < s.len() && p(#[trigger] s[i]) ==> s[i].name.len() <= deepest(s, p)->0.name.len(),
    decreases s.len(),
{
    if s.len() > 0 {
        let m = s.drop_last();
        law_deepest_owner_wins(m, p);
        if any_of(s, p) {
            let k = choose|k: int| 0 <= k < s.len() && p(#[trigger] s[k]);
            if k < m.len() {
                assert(m[k] == s[k]);
                assert(any_of(m, p));
            }
        }
        assert forall|i: int| 0 <= i < s.len() && p(#[trigger] s[i]) implies s[i].name.len()
            <= deepest(s, p)->0.name.len() by {
            if i < m.len() {
                assert(m[i] == s[i]);
                assert(any_of(m, p));
            }
        }
        if deepest(s, p) is Some {
            let d = deepest(s, p)->0;
            if d == s.last() {
                assert(s[s.len() - 1] == d);
            } else {
                let k = choose|k: int| 0 <= k < m.len() && m[k] == d;
                assert(s[k] == d);
            }
        }
    }
}

fn deepest_record<F: Fn(&Record) -> bool>(
    v: &Vec<Record>,
    f: F,
    Ghost(p): Ghost<spec_fn(RecordView) -> bool>,
) -> (r: Option<usize>)
    requires
        forall|t: Record| #[trigger] call_requires(f, (&t,)),
        forall|t: Record, b: bool| #[trigger] call_ensures(f, (&t,), b) ==> b == p(t@),
    ensures
        r matches Some(i) ==> i < v.len() && deepest(views(v@), p) == Some(v@[i as int]@) && p(
            v@[i as int]@,
        ),
        r is None ==> deepest(views(v@), p) is None,
{
    let mut best: Option<usize> = None;
    let mut i: usize = 0;
    assert(views(v@).take(0) =~= Seq::<RecordView>::empty());
    while i < v.len()
        invariant
            i <= v.len(),
            forall|t: Record| #[trigger] call_requires(f, (&t,)),
            forall|t: Record, b: bool| #[trigger] call_ensures(f, (&t,), b) ==> b == p(t@),
            best matches Some(k) ==> k < i && deepest(views(v@).take(i as int), p) == Some(
                v@[k as int]@,
            ) && p(v@[k as int]@),
            best is None ==> deepest(views(v@).take(i as int), p) is None,
        decreases v.len() - i,
    {
        proof {
            let next = views(v@).take(i + 1);
            assert(next.drop_last() =~= views(v@).take(i as int));
            assert(next.last() == v@[i as int]@);
        }
        if f(&v[i]) {
            let longer: bool = match best {
                None => true,
                Some(k) => v[k].name.num_labels() < v[i].name.num_labels(),
            };
            if longer {
                best = Some(i);
            }
        }
        i = i + 1;
    }
    assert(views(v@).take(v@.len() as int) =~= views(v@));
    best
}

/// An Internet-class record that delegates a zone around `qname`.
pub open spec fn delegates(qname: Seq<Seq<u8>>) -> spec_fn(RecordView) -> bool {
    |r: RecordView| r.class == CLASS_IN && r.rdata is Ns && within(qname, r.name)
}

/// An Internet-class record that names a server of `zone`.
pub open spec fn names_server_of(zone: Seq<Seq<u8>>) -> spec_fn(RecordView) -> bool {
    |r: RecordView| r.class == CLASS_IN && r.rdata is Ns && same_name(r.name, zone)
}

pub open spec fn server_names(s: Seq<RecordView>) -> Seq<Seq<Seq<u8>>> {
    Seq::new(s.len(), |i: int| s[i].rdata->Ns_0)
}

/// Only a response without error, without authority and without an answer can
/// refer elsewhere.
pub open spec fn may_refer(m: MessageView) -> bool {
    m.header.rcode == RCODE_NOERROR && !m.header.authoritative && m.answers.len() == 0
}

/// The zone that the response refers to: the deepest one around the question.
pub open spec fn referral_zone(m: MessageView, qname: Seq<Seq<u8>>) -> Option<Seq<Seq<u8>>> {
    if !may_refer(m) {
        None
    } else {
        match deepest(m.authorities, delegates(qname)) {
            Some(r) => Some(r.name),
            None => None,
        }
    }
}

/// The servers that the response names for `zone`.
pub open spec fn referral_servers(m: MessageView, zone: Seq<Seq<u8>>) -> Seq<Seq<Seq<u8>>> {
    server_names(m.authorities.filter(names_server_of(zone)))
}

/// The zone that the response delegates, and the names of its servers. Only
/// name server records of the authority section count: those of the answer
/// section answer for the zone itself.
pub fn extract_referral(resp: &Message, qname: &Name) -> (r: (Option<Name>, Vec<Name>))
    ensures
        r.0 matches Some(z) ==> referral_zone(resp@, qname@) == Some(z@) && views(r.1@)
            == referral_servers(resp@, z@),
        r.0 is None ==> referral_zone(resp@, qname@) is None && r.1@.len() == 0,
{
    if resp.header.rcode != RCODE_NOERROR || resp.header.authoritative || resp.answers.len() > 0 {
        return (None, Vec::new());
    }
    let best = deepest_record(
        &resp.authorities,
        |r: &Record| -> (b: bool)
            ensures
                b == delegates(qname@)(r@)
            {
                let is_ns: bool = match &r.rdata {
                    RData::Ns(_) => true,
                    _ => false,
                };
                r.class == CLASS_IN && is_ns && is_within(qname, &r.name)
            },
        Ghost(delegates(qname@)),
    );
    match best {
        None => (None, Vec::new()),
        Some(k) => {
            let zone = resp.authorities[k].name.clone();
            let servers = collect_server_names(&resp.authorities, &zone);
            (Some(zone), servers)
        },
    }
}

fn collect_server_names(v: &Vec<Record>, zone: &Name) -> (r: Vec<Name>)
    ensures
        views(r@) == server_names(views(v@).filter(names_server_of(zone@))),
{
    let ghost p = names_server_of(zone@);
    let found = pick(
        v,
        |r: &Record| -> (b: bool)
            ensures
                b == names_server_of(zone@)(r@)
            {
                let is_ns: bool = match &r.rdata {
                    RData::Ns(_) => true,
                    _ => false,
                };
                r.class == CLASS_IN && is_ns && r.name.eq_ignore_case(zone)
            },
        Ghost(p),
    );
    proof {
        lemma_filter_holds(views(v@), p);
        assert forall|k: int| 0 <= k < found.len() implies (#[trigger] found@[k])@.rdata is Ns by {
            assert(p(views(found@)[k]));
        }
    }
    let mut out: Vec<Name> = Vec::new();
    let mut i: usize = 0;
    while i < found.len()
        invariant
            i <= found.len(),
            views(found@) == views(v@).filter(p),
            forall|k: int| 0 <= k < found.len() ==> (#[trigger] found@[k])@.rdata is Ns,
            views(out@) =~= server_names(views(found@)).take(i as int),
        decreases found.len() - i,
    {
        let ghost before = out@;
        match &found[i].rdata {
            RData::Ns(n) => {
                let c = n.clone();
                out.push(c);
                proof {
                    lemma_views_push(before, c);
                    assert(server_names(views(found@)).take(i + 1) =~= server_names(
                        views(found@),
                    ).take(i as int).push(c@));
                }
            },
            _ => {
                assert(found@[i as int]@.rdata is Ns);
            },
        }
        i = i + 1;
    }
    assert(views(out@) =~= server_names(views(found@)));
    out
}

/// An Internet-class record at `qname` of the type asked for.
pub open spec fn answers_directly(qname: Seq<Seq<u8>>, qtype: u16) -> spec_fn(RecordView) -> bool {
    |r: RecordView|
        r.class == CLASS_IN && same_name(r.name, qname) && (qtype == TYPE_ANY || r.rtype == qtype)
}

pub open spec fn direct_answer(m: MessageView, qname: Seq<Seq<u8>>, qtype: u16) -> bool {
    any_of(m.answers, answers_directly(qname, qtype))
}

/// Whether the answer section holds what was asked for, under its own name.
pub fn has_direct_qtype_answer(resp: &Message, qname: &Name, qtype: u16) -> (r: bool)
    ensures
        r == direct_answer(resp@, qname@, qtype),
{
    any_element(
        &resp.answers,
        |r: &Record| -> (b: bool)
            ensures
                b == answers_directly(qname@, qtype)(r@)
            {
                r.class == CLASS_IN && r.name.eq_ignore_case(qname) && (qtype == TYPE_ANY || r.rtype
                    == qtype)
            },
        Ghost(answers_directly(qname@, qtype)),
    )
}

/// An Internet-class DNAME whose owner is a proper ancestor of `qname`.
pub open spec fn covering_dname(qname: Seq<Seq<u8>>) -> spec_fn(RecordView) -> bool {
    |r: RecordView|
        r.class == CLASS_IN && r.rdata is Dname && r.name.len() < qname.len() && same_name(
            last_labels(qname, r.name.len() as int),
            r.name,
        )
}

fn covers_by_dname(r: &Record, qname: &Name) -> (b: bool)
    ensures
        b == covering_dname(qname@)(r@),
{
    let is_dname: bool = match &r.rdata {
        RData::Dname(_) => true,
        _ => false,
    };
    r.class == CLASS_IN && is_dname && r.name.num_labels() < qname.num_labels() && qname.suffix(
        r.name.num_labels(),
    ).eq_ignore_case(&r.name)
}

pub open spec fn dname_overflow(m: MessageView, qname: Seq<Seq<u8>>) -> bool {
    m.header.rcode == RCODE_YXDOMAIN && m.header.authoritative && any_of(
        m.answers,
        covering_dname(qname),
    )
}

/// Whether the response says with authority that the name which a DNAME gives
/// would be too long. That too ends the search.
pub fn is_dname_yxdomain(resp: &Message, qname: &Name) -> (r: bool)
    ensures
        r == dname_overflow(resp@, qname@),
{
    resp.header.rcode == RCODE_YXDOMAIN && resp.header.authoritative && any_element(
        &resp.answers,
        |r: &Record| -> (b: bool)
            ensures
                b == covering_dname(qname@)(r@)
            { covers_by_dname(r, qname) },
        Ghost(covering_dname(qname@)),
    )
}

pub open spec fn soa_at(zone: Seq<Seq<u8>>) -> spec_fn(RecordView) -> bool {
    |r: RecordView| r.rtype == TYPE_SOA && r.class == CLASS_IN && same_name(r.name, zone)
}

pub open spec fn relevant_soa(m: MessageView, qname: Seq<Seq<u8>>, zone: Seq<Seq<u8>>) -> bool {
    within(qname, zone) && any_of(m.authorities, soa_at(zone))
}

/// Whether the authority section holds the start of authority of this very
/// zone, around the question.
pub fn has_relevant_soa(resp: &Message, qname: &Name, zone: &Name) -> (r: bool)
    ensures
        r == relevant_soa(resp@, qname@, zone@),
{
    is_within(qname, zone) && any_element(
        &resp.authorities,
        |r: &Record| -> (b: bool)
            ensures
                b == soa_at(zone@)(r@)
            { r.rtype == TYPE_SOA && r.class == CLASS_IN && r.name.eq_ignore_case(zone) },
        Ghost(soa_at(zone@)),
    )
}

pub open spec fn authoritative_negative(
    m: MessageView,
    qname: Seq<Seq<u8>>,
    zone: Seq<Seq<u8>>,
) -> bool {
    m.header.authoritative && relevant_soa(m, qname, zone)
}

/// Whether a denial may be believed: it comes with authority, from the zone
/// that was asked.
pub fn is_authoritative_negative(resp: &Message, qname: &Name, zone: &Name) -> (r: bool)
    ensures
        r == authoritative_negative(resp@, qname@, zone@),
{
    resp.header.authoritative && has_relevant_soa(resp, qname, zone)
}

pub open spec fn terminal(m: MessageView, qname: Seq<Seq<u8>>, zone: Seq<Seq<u8>>) -> bool {
    m.header.rcode == RCODE_NOERROR && authoritative_negative(m, qname, zone)
}

/// Whether the response ends the search although it has no answer.
pub fn is_terminal_response(resp: &Message, qname: &Name, zone: &Name) -> (r: bool)
    ensures
        r == terminal(resp@, qname@, zone@),
{
    resp.header.rcode == RCODE_NOERROR && is_authoritative_negative(resp, qname, zone)
}

pub open spec fn cname_rrset_at(owner: Seq<Seq<u8>>) -> spec_fn(RecordView) -> bool {
    |r: RecordView| r.class == CLASS_IN && r.rtype == TYPE_CNAME && same_name(r.name, owner)
}

/// A record that may stand beside an alias at `owner`.
pub open spec fn beside_cname(owner: Seq<Seq<u8>>) -> spec_fn(RecordView) -> bool {
    |r: RecordView|
        r.class != CLASS_IN || !same_name(r.name, owner) || r.rtype == TYPE_CNAME || r.rtype
            == TYPE_RRSIG || r.rtype == TYPE_NSEC
}

pub open spec fn alias_at(qname: Seq<Seq<u8>>) -> spec_fn(RecordView) -> bool {
    |r: RecordView| r.rdata is Cname && r.class == CLASS_IN && same_name(r.name, qname)
}

/// All the aliases point to one name.
pub open spec fn aliases_agree(s: Seq<RecordView>) -> bool {
    forall|i: int, j: int|
        0 <= i < s.len() && 0 <= j < s.len() ==> same_name(
            (#[trigger] s[i]).rdata->Cname_0,
            (#[trigger] s[j]).rdata->Cname_0,
        )
}

/// An owner of an alias owns nothing else but signatures and denials, and all
/// its aliases point to one name.
pub open spec fn cname_owner_valid(m: MessageView, owner: Seq<Seq<u8>>) -> bool {
    any_of(m.answers, cname_rrset_at(owner)) ==> all_of(m.answers, beside_cname(owner))
        && aliases_agree(m.answers.filter(alias_at(owner)))
}

fn aliases_of(resp: &Message, owner: &Name) -> (r: Vec<Record>)
    ensures
        views(r@) == resp@.answers.filter(alias_at(owner@)),
        forall|k: int| 0 <= k < r.len() ==> (#[trigger] r@[k])@.rdata is Cname,
{
    let ghost p = alias_at(owner@);
    let found = pick(
        &resp.answers,
        |r: &Record| -> (b: bool)
            ensures
                b == alias_at(owner@)(r@)
            {
                let is_cname: bool = match &r.rdata {
                    RData::Cname(_) => true,
                    _ => false,
                };
                is_cname && r.class == CLASS_IN && r.name.eq_ignore_case(owner)
            },
        Ghost(p),
    );
    proof {
        lemma_filter_holds(resp@.answers, p);
        assert forall|k: int| 0 <= k < found.len() implies (#[trigger] found@[k])@.rdata is Cname by {
            assert(p(views(found@)[k]));
        }
    }
    found
}

fn all_aliases_agree(found: &Vec<Record>) -> (r: bool)
    requires
        forall|k: int| 0 <= k < found.len() ==> (#[trigger] found@[k])@.rdata is Cname,
    ensures
        r == aliases_agree(views(found@)),
{
    if found.len() == 0 {
        return true;
    }
    let first = match &found[0].rdata {
        RData::Cname(n) => n,
        _ => {
            assert(found@[0]@.rdata is Cname);
            return false;
        },
    };
    let mut i: usize = 1;
    while i < found.len()
        invariant
            1 <= i <= found.len(),
            first@ == found@[0]@.rdata->Cname_0,
            forall|k: int| 0 <= k < found.len() ==> (#[trigger] found@[k])@.rdata is Cname,
            forall|k: int|
                0 <= k < i ==> same_name(first@, (#[trigger] views(found@)[k]).rdata->Cname_0),
        decreases found.len() - i,
    {
        match &found[i].rdata {
            RData::Cname(n) => {
                if !first.eq_ignore_case(n) {
                    assert(!same_name(
                        views(found@)[0].rdata->Cname_0,
                        views(found@)[i as int].rdata->Cname_0,
                    ));
                    return false;
                }
                assert(same_name(first@, views(found@)[i as int].rdata->Cname_0));
            },
            _ => {
                assert(found@[i as int]@.rdata is Cname);
            },
        }
        i = i + 1;
    }
    true
}

/// Whether the alias at `owner` can be accepted. Data beside it, or aliases
/// that point to different names, make it unclear what to follow.
pub fn cname_owner_is_valid(resp: &Message, owner: &Name) -> (r: bool)
    ensures
        r == cname_owner_valid(resp@, owner@),
{
    let has_cname: bool = any_element(
        &resp.answers,
        |r: &Record| -> (b: bool)
            ensures
                b == cname_rrset_at(owner@)(r@)
            { r.class == CLASS_IN && r.rtype == TYPE_CNAME && r.name.eq_ignore_case(owner) },
        Ghost(cname_rrset_at(owner@)),
    );
    if !has_cname {
        return true;
    }
    let alone: bool = all_elements(
        &resp.answers,
        |r: &Record| -> (b: bool)
            ensures
                b == beside_cname(owner@)(r@)
            {
                r.class != CLASS_IN || !r.name.eq_ignore_case(owner) || r.rtype == TYPE_CNAME
                    || r.rtype == TYPE_RRSIG || r.rtype == TYPE_NSEC
            },
        Ghost(beside_cname(owner@)),
    );
    alone && all_aliases_agree(&aliases_of(resp, owner))
}

/// Where the alias at `qname` points: nowhere if the owner holds other data,
/// or if aliases disagree.
pub open spec fn cname_target_of(m: MessageView, qname: Seq<Seq<u8>>) -> Option<Seq<Seq<u8>>> {
    let found = m.answers.filter(alias_at(qname));
    if cname_owner_valid(m, qname) && found.len() > 0 && aliases_agree(found) {
        Some(found.last().rdata->Cname_0)
    } else {
        None
    }
}

pub fn cname_target(resp: &Message, qname: &Name) -> (r: Option<Name>)
    ensures
        r matches Some(t) ==> cname_target_of(resp@, qname@) == Some(t@),
        r is None ==> cname_target_of(resp@, qname@) is None,
{
    if !cname_owner_is_valid(resp, qname) {
        return None;
    }
    let found = aliases_of(resp, qname);
    if found.len() == 0 || !all_aliases_agree(&found) {
        return None;
    }
    let last = &found[found.len() - 1];
    assert(views(found@).last() == last@);
    match &last.rdata {
        RData::Cname(n) => Some(n.clone()),
        _ => {
            assert(found@[found.len() - 1]@.rdata is Cname);
            None
        },
    }
}

/// A DNAME at `owner` that points elsewhere than to `target`.
pub open spec fn conflicting_dname(
    owner: Seq<Seq<u8>>,
    target: Seq<Seq<u8>>,
) -> spec_fn(RecordView) -> bool {
    |r: RecordView|
        r.class == CLASS_IN && same_name(r.name, owner) && r.rdata is Dname && !same_name(
            r.rdata->Dname_0,
            target,
        )
}

/// `qname` with the owner's labels replaced by the target's.
pub open spec fn rewritten(
    qname: Seq<Seq<u8>>,
    owner: Seq<Seq<u8>>,
    target: Seq<Seq<u8>>,
) -> Seq<Seq<u8>> {
    qname.take(qname.len() - owner.len()) + target
}

/// How a DNAME of the response renames `qname`: the record, the new name, and
/// the alias that stands for it.
pub open spec fn dname_rewrite_of(m: MessageView, qname: Seq<Seq<u8>>) -> Option<
    (RecordView, Seq<Seq<u8>>, RecordView),
> {
    match deepest(m.answers, covering_dname(qname)) {
        None => None,
        Some(d) => {
            let suffix = d.rdata->Dname_0;
            let target = rewritten(qname, d.name, suffix);
            if any_of(m.answers, conflicting_dname(d.name, suffix)) || !valid_name(target) {
                None
            } else {
                Some((d, target, in_record(qname, d.ttl, RDataView::Cname(target))))
            }
        },
    }
}

/// Renames `qname` by a DNAME of the answer section. The longest owner wins;
/// owners that point to different names rename nothing, nor does one whose
/// result would not be a valid name.
pub fn dname_rewrite(resp: &Message, qname: &Name) -> (r: Option<(Record, Name, Record)>)
    ensures
        r matches Some(t) ==> dname_rewrite_of(resp@, qname@) == Some((t.0@, t.1@, t.2@)),
        r is None ==> dname_rewrite_of(resp@, qname@) is None,
{
    let best = deepest_record(
        &resp.answers,
        |r: &Record| -> (b: bool)
            ensures
                b == covering_dname(qname@)(r@)
            { covers_by_dname(r, qname) },
        Ghost(covering_dname(qname@)),
    );
    let k: usize = match best {
        None => {
            return None;
        },
        Some(k) => k,
    };
    let record = &resp.answers[k];
    let owner = &record.name;
    let suffix = match &record.rdata {
        RData::Dname(s) => s,
        _ => {
            return None;
        },
    };
    let conflict: bool = any_element(
        &resp.answers,
        |r: &Record| -> (b: bool)
            ensures
                b == conflicting_dname(owner@, suffix@)(r@)
            {
                r.class == CLASS_IN && r.name.eq_ignore_case(owner) && match &r.rdata {
                    RData::Dname(other) => !other.eq_ignore_case(suffix),
                    _ => false,
                }
            },
        Ghost(conflicting_dname(owner@, suffix@)),
    );
    if conflict {
        return None;
    }
    let kept: usize = qname.num_labels() - owner.num_labels();
    let mut labels: Vec<Vec<u8>> = Vec::new();
    let ghost want = rewritten(qname@, owner@, suffix@);
    let mut i: usize = 0;
    while i < kept
        invariant
            i <= kept <= qname@.len(),
            labels_view(labels@) =~= qname@.take(i as int),
        decreases kept - i,
    {
        let ghost before = labels@;
        let l = qname.label(i);
        labels.push(l);
        proof {
            assert(labels_view(labels@) =~= labels_view(before).push(l@));
            assert(qname@.take(i + 1) =~= qname@.take(i as int).push(qname@[i as int]));
        }
        i = i + 1;
    }
    let mut j: usize = 0;
    let tail: usize = suffix.num_labels();
    while j < tail
        invariant
            j <= tail,
            tail == suffix@.len(),
            labels_view(labels@) =~= qname@.take(kept as int) + suffix@.take(j as int),
        decreases tail - j,
    {
        let ghost before = labels@;
        let l = suffix.label(j);
        labels.push(l);
        proof {
            assert(labels_view(labels@) =~= labels_view(before).push(l@));
            assert(suffix@.take(j + 1) =~= suffix@.take(j as int).push(suffix@[j as int]));
            assert((qname@.take(kept as int) + suffix@.take(j as int)).push(l@) =~= qname@.take(
                kept as int,
            ) + suffix@.take(j + 1));
        }
        j = j + 1;
    }
    proof {
        assert(suffix@.take(tail as int) =~= suffix@);
        assert(labels_view(labels@) =~= want);
    }
    match Name::from_labels(labels) {
        None => None,
        Some(target) => {
            let synthetic = Record::new(qname.clone(), record.ttl, RData::Cname(target.clone()));
            Some((record.replicate(), target, synthetic))
        },
    }
}

pub open spec fn relevant_alias(m: MessageView, qname: Seq<Seq<u8>>) -> bool {
    cname_target_of(m, qname) is Some || dname_rewrite_of(m, qname) is Some
}

pub fn has_relevant_alias(resp: &Message, qname: &Name) -> (r: bool)
    ensures
        r == relevant_alias(resp@, qname@),
{
    cname_target(resp, qname).is_some() || dname_rewrite(resp, qname).is_some()
}

pub open spec fn relevant_positive(m: MessageView, qname: Seq<Seq<u8>>, qtype: u16) -> bool {
    m.header.rcode == RCODE_NOERROR && m.header.authoritative && cname_owner_valid(m, qname) && (
    direct_answer(m, qname, qtype) || relevant_alias(m, qname))
}

/// Whether the response answers this very question: with authority, and with
/// the data asked for or an alias.
pub fn is_relevant_positive(resp: &Message, qname: &Name, qtype: u16) -> (r: bool)
    ensures
        r == relevant_positive(resp@, qname@, qtype),
{
    resp.header.rcode == RCODE_NOERROR && resp.header.authoritative && cname_owner_is_valid(
        resp,
        qname,
    ) && (has_direct_qtype_answer(resp, qname, qtype) || has_relevant_alias(resp, qname))
}

pub open spec fn retryable(rcode: u16) -> bool {
    rcode == RCODE_FORMERR || rcode == RCODE_SERVFAIL || rcode == RCODE_NOTIMP || rcode
        == RCODE_REFUSED
}

/// Whether another server may do better after this response code.
pub fn retryable_rcode(rcode: u16) -> (r: bool)
    ensures
        r == retryable(rcode),
{
    rcode == RCODE_FORMERR || rcode == RCODE_SERVFAIL || rcode == RCODE_NOTIMP || rcode
        == RCODE_REFUSED
}

/// The questions are those that were sent, in any letter case.
pub open spec fn same_questions(m: Seq<QuestionView>, sent: Seq<QuestionView>) -> bool {
    m.len() == sent.len() && forall|i: int|
        0 <= i < m.len() ==> {
            let q = #[trigger] m[i];
            q.qtype == sent[i].qtype && q.qclass == sent[i].qclass && same_name(
                q.name,
                sent[i].name,
            )
        }
}

/// Whether the questions are those that were sent, in any letter case.
pub fn questions_match(resp: &Vec<Question>, sent: &Vec<Question>) -> (r: bool)
    ensures
        r == same_questions(views(resp@), views(sent@)),
{
    assert(views(resp@).len() == resp.len());
    assert(views(sent@).len() == sent.len());
    if resp.len() != sent.len() {
        return false;
    }
    let mut i: usize = 0;
    while i < resp.len()
        invariant
            i <= resp.len(),
            resp.len() == sent.len(),
            views(resp@).len() == resp.len(),
            views(sent@).len() == sent.len(),
            forall|j: int|
                0 <= j < i ==> {
                    let q = #[trigger] views(resp@)[j];
                    let t = views(sent@)[j];
                    q.qtype == t.qtype && q.qclass == t.qclass && same_name(q.name, t.name)
                },
        decreases resp.len() - i,
    {
        assert(views(resp@)[i as int] == resp@[i as int]@);
        assert(views(sent@)[i as int] == sent@[i as int]@);
        if resp[i].qtype != sent[i].qtype || resp[i].qclass != sent[i].qclass
            || !resp[i].name.eq_ignore_case(&sent[i].name) {
            return false;
        }
        i = i + 1;
    }
    true
}

/// The response moves a search for the name and type forward: it answers, denies
/// with authority, or refers closer to the question.
pub open spec fn helpful(
    m: MessageView,
    qname: Seq<Seq<u8>>,
    qtype: u16,
    zone: Seq<Seq<u8>>,
) -> bool {
    if m.header.rcode == RCODE_NOERROR {
        relevant_positive(m, qname, qtype) || authoritative_negative(m, qname, zone) || (
        referral_zone(m, qname) is Some && closer(referral_zone(m, qname)->0, zone))
    } else if m.header.rcode == RCODE_NXDOMAIN {
        authoritative_negative(m, qname, zone)
    } else if m.header.rcode == RCODE_YXDOMAIN {
        dname_overflow(m, qname)
    } else {
        false
    }
}

/// The response belongs to the query, by its number and its question, and moves the
/// search forward.
pub open spec fn usable(m: MessageView, sent: MessageView, zone: Seq<Seq<u8>>) -> bool {
    &&& sent.questions.len() > 0
    &&& m.header.id == sent.header.id
    &&& same_questions(m.questions, sent.questions)
    &&& helpful(m, sent.questions[0].name, sent.questions[0].qtype, zone)
}

/// Whether the response can be used to go on; if not, another server has to be
/// asked.
pub fn response_usable_for_iteration(resp: &Message, query: &Message, zone: &Name) -> (r: bool)
    ensures
        r == usable(resp@, query@, zone@),
{
    assert(query@.questions.len() == query.questions.len());
    if query.questions.len() == 0 {
        return false;
    }
    let question = &query.questions[0];
    assert(query@.questions[0] == question@);
    if resp.header.id != query.header.id || !questions_match(&resp.questions, &query.questions) {
        return false;
    }
    if retryable_rcode(resp.header.rcode) {
        return false;
    }
    if resp.header.rcode == RCODE_NOERROR {
        if is_relevant_positive(resp, &question.name, question.qtype) {
            return true;
        }
        if is_authoritative_negative(resp, &question.name, zone) {
            return true;
        }
        match extract_referral(resp, &question.name).0 {
            Some(child) => is_closer(&child, zone),
            None => false,
        }
    } else if resp.header.rcode == RCODE_NXDOMAIN {
        is_authoritative_negative(resp, &question.name, zone)
    } else if resp.header.rcode == RCODE_YXDOMAIN {
        is_dname_yxdomain(resp, &question.name)
    } else {
        false
    }
}

/// A signature record over records of type `covered`.
pub open spec fn signs(r: RecordView, covered: u16) -> bool {
    r.rtype == TYPE_RRSIG && r.rdata is Rrsig && r.rdata->Rrsig_0.type_covered == covered
}

pub(crate) fn record_signs(r: &Record, covered: u16) -> (b: bool)
    ensures
        b == signs(r@, covered),
{
    r.rtype == TYPE_RRSIG && match &r.rdata {
        RData::Rrsig(s) => s.type_covered == covered,
        _ => false,
    }
}

/// What a positive answer keeps: the records asked for and their signatures.
pub open spec fn kept_answer(qname: Seq<Seq<u8>>, qtype: u16) -> spec_fn(RecordView) -> bool {
    |r: RecordView|
        r.class == CLASS_IN && same_name(r.name, qname) && (qtype == TYPE_ANY || r.rtype == qtype
            || signs(r, qtype))
}

/// What a denial keeps: the zone's start of authority, the denial records
/// inside the zone, and the signatures over these.
pub open spec fn kept_denial(zone: Option<Seq<Seq<u8>>>) -> spec_fn(RecordView) -> bool {
    |r: RecordView|
        {
            &&& r.class == CLASS_IN
            &&& zone is Some
            &&& within(r.name, zone->0)
            &&& {
                ||| r.rtype == TYPE_SOA && same_name(r.name, zone->0)
                ||| r.rtype == TYPE_NSEC
                ||| r.rtype == TYPE_NSEC3
                ||| signs(r, TYPE_NSEC)
                ||| signs(r, TYPE_NSEC3)
                ||| signs(r, TYPE_SOA) && same_name(r.name, zone->0)
            }
        }
}

pub open spec fn is_opt() -> spec_fn(RecordView) -> bool {
    |r: RecordView| r.rtype == TYPE_OPT
}

/// The response without the records that nobody vouches for.
pub open spec fn sanitized(
    m: MessageView,
    qname: Seq<Seq<u8>>,
    qtype: u16,
    positive: bool,
    proof_zone: Option<Seq<Seq<u8>>>,
) -> MessageView {
    MessageView {
        answers: if positive {
            m.answers.filter(kept_answer(qname, qtype))
        } else {
            Seq::empty()
        },
        authorities: if positive {
            Seq::empty()
        } else {
            m.authorities.filter(kept_denial(proof_zone))
        },
        additionals: m.additionals.filter(is_opt()),
        ..m
    }
}

pub open spec fn name_view(n: Option<&Name>) -> Option<Seq<Seq<u8>>> {
    match n {
        Some(n) => Some(n@),
        None => None,
    }
}

/// Drops what an upstream server put in beside the point.
pub fn sanitize_terminal_response(
    response: &mut Message,
    qname: &Name,
    qtype: u16,
    positive: bool,
    proof_zone: Option<&Name>,
)
    ensures
        final(response)@ == sanitized(old(response)@, qname@, qtype, positive, name_view(proof_zone)),
{
    if positive {
        keep_only(
            &mut response.answers,
            |r: &Record| -> (b: bool)
                ensures
                    b == kept_answer(qname@, qtype)(r@)
                {
                    r.class == CLASS_IN && r.name.eq_ignore_case(qname) && (qtype == TYPE_ANY
                        || r.rtype == qtype || record_signs(r, qtype))
                },
            Ghost(kept_answer(qname@, qtype)),
        );
        response.authorities.clear();
        assert(views(response.authorities@) =~= Seq::<RecordView>::empty());
    } else {
        response.answers.clear();
        assert(views(response.answers@) =~= Seq::<RecordView>::empty());
        let ghost zone = name_view(proof_zone);
        keep_only(
            &mut response.authorities,
            |r: &Record| -> (b: bool)
                ensures
                    b == kept_denial(name_view(proof_zone))(r@)
                {
                    match proof_zone {
                        None => false,
                        Some(z) => r.class == CLASS_IN && is_within(&r.name, z) && ((r.rtype
                            == TYPE_SOA && r.name.eq_ignore_case(z)) || r.rtype == TYPE_NSEC
                            || r.rtype == TYPE_NSEC3 || record_signs(r, TYPE_NSEC) || record_signs(
                            r,
                            TYPE_NSEC3,
                        ) || (record_signs(r, TYPE_SOA) && r.name.eq_ignore_case(z))),
                    }
                },
            Ghost(kept_denial(zone)),
        );
    }
    keep_only(
        &mut response.additionals,
        |r: &Record| -> (b: bool)
            ensures
                b == is_opt()(r@)
            { r.rtype == TYPE_OPT },
        Ghost(is_opt()),
    );
}

/// Keeping what satisfies `p` twice is keeping it once.
proof fn lemma_filter_twice<V>(s: Seq<V>, p: spec_fn(V) -> bool)
    ensures
        s.filter(p).filter(p) == s.filter(p),
    decreases s.len(),
{
    reveal(Seq::filter);
    if s.len() > 0 {
        let rest = s.drop_last();
        lemma_filter_twice(rest, p);
        if p(s.last()) {
            let kept = rest.filter(p).push(s.last());
            assert(kept.drop_last() =~= rest.filter(p));
            assert(kept.last() == s.last());
        }
    }
}

/// What is left of a response is all vouched for: cleaning it once more drops
/// nothing, an answer brings no authority records along, and a denial no answers.
pub proof fn law_cleaned_responses_are_clean(
    m: MessageView,
    qname: Seq<Seq<u8>>,
    qtype: u16,
    positive: bool,
    proof_zone: Option<Seq<Seq<u8>>>,
)
    ensures
        ({
            let c = sanitized(m, qname, qtype, positive, proof_zone);
            &&& sanitized(c, qname, qtype, positive, proof_zone) == c
            &&& positive ==> c.authorities.len() == 0
            &&& !positive ==> c.answers.len() == 0
            &&& forall|i: int|
                0 <= i < c.answers.len() ==> kept_answer(qname, qtype)(#[trigger] c.answers[i])
            &&& forall|i: int|
                0 <= i < c.authorities.len() ==> kept_denial(proof_zone)(
                    #[trigger] c.authorities[i],
                )
        }),
{
    lemma_filter_twice(m.answers, kept_answer(qname, qtype));
    lemma_filter_twice(m.authorities, kept_denial(proof_zone));
    lemma_filter_twice(m.additionals, is_opt());
    lemma_filter_holds(m.answers, kept_answer(qname, qtype));
    lemma_filter_holds(m.authorities, kept_denial(proof_zone));
}

/// One step along an alias: where it leads, where and of which type it is, and
/// the records that show it.
pub struct AliasHop {
    pub target: Name,
    pub owner: Name,
    pub atype: u16,
    pub records: Vec<Record>,
}

pub struct AliasHopView {
    pub target: Seq<Seq<u8>>,
    pub owner: Seq<Seq<u8>>,
    pub atype: u16,
    pub records: Seq<RecordView>,
}

impl View for AliasHop {
    type V = AliasHopView;

    open spec fn view(&self) -> AliasHopView {
        AliasHopView {
            target: self.target@,
            owner: self.owner@,
            atype: self.atype,
            records: views(self.records@),
        }
    }
}

/// An alias record at `owner`, or a signature over such records.
pub open spec fn alias_set_at(owner: Seq<Seq<u8>>, atype: u16) -> spec_fn(RecordView) -> bool {
    |r: RecordView|
        same_name(r.name, owner) && r.class == CLASS_IN && (r.rtype == atype || signs(r, atype))
}

pub fn alias_rrset_records(response: &Message, owner: &Name, alias_type: u16) -> (r: Vec<Record>)
    ensures
        views(r@) == response@.answers.filter(alias_set_at(owner@, alias_type)),
{
    pick(
        &response.answers,
        |r: &Record| -> (b: bool)
            ensures
                b == alias_set_at(owner@, alias_type)(r@)
            {
                r.name.eq_ignore_case(owner) && r.class == CLASS_IN && (r.rtype == alias_type
                    || record_signs(r, alias_type))
            },
        Ghost(alias_set_at(owner@, alias_type)),
    )
}

/// The alias that must be followed before the question is answered. A DNAME
/// goes before a CNAME, and before a direct answer.
pub open spec fn alias_hop_of(m: MessageView, qname: Seq<Seq<u8>>, qtype: u16) -> Option<
    AliasHopView,
> {
    if m.header.rcode == RCODE_NXDOMAIN {
        None
    } else if let Some(d) = dname_rewrite_of(m, qname) {
        Some(
            AliasHopView {
                target: d.1,
                owner: d.0.name,
                atype: TYPE_DNAME,
                records: m.answers.filter(alias_set_at(d.0.name, TYPE_DNAME)).push(d.2),
            },
        )
    } else if direct_answer(m, qname, qtype) {
        None
    } else if let Some(t) = cname_target_of(m, qname) {
        Some(
            AliasHopView {
                target: t,
                owner: qname,
                atype: TYPE_CNAME,
                records: m.answers.filter(alias_set_at(qname, TYPE_CNAME)),
            },
        )
    } else {
        None
    }
}

pub fn alias_hop(resp: &Message, qname: &Name, qtype: u16) -> (r: Option<AliasHop>)
    ensures
        r matches Some(h) ==> alias_hop_of(resp@, qname@, qtype) == Some(h@),
        r is None ==> alias_hop_of(resp@, qname@, qtype) is None,
{
    if resp.header.rcode == RCODE_NXDOMAIN {
        return None;
    }
    if let Some((dname_record, target, synthetic_cname)) = dname_rewrite(resp, qname) {
        let owner = dname_record.name;
        let mut records = alias_rrset_records(resp, &owner, TYPE_DNAME);
        proof {
            lemma_views_push(records@, synthetic_cname);
        }
        records.push(synthetic_cname);
        return Some(AliasHop { target, owner, atype: TYPE_DNAME, records });
    }
    if has_direct_qtype_answer(resp, qname, qtype) {
        return None;
    }
    match cname_target(resp, qname) {
        None => None,
        Some(target) => Some(
            AliasHop {
                target,
                owner: qname.clone(),
                atype: TYPE_CNAME,
                records: alias_rrset_records(resp, qname, TYPE_CNAME),
            },
        ),
    }
}

/// A DNAME stays only where its owner lies inside the zone that was asked.
pub open spec fn in_bailiwick(zone: Seq<Seq<u8>>) -> spec_fn(RecordView) -> bool {
    |r: RecordView| !(r.rdata is Dname) || within(r.name, zone)
}

pub open spec fn stripped(m: MessageView, zone: Seq<Seq<u8>>) -> MessageView {
    MessageView { answers: m.answers.filter(in_bailiwick(zone)), ..m }
}

/// Drops every DNAME whose owner lies outside `zone`.
pub fn strip_out_of_bailiwick_dnames(resp: &mut Message, zone: &Name)
    ensures
        final(resp)@ == stripped(old(resp)@, zone@),
{
    keep_only(
        &mut resp.answers,
        |r: &Record| -> (b: bool)
            ensures
                b == in_bailiwick(zone@)(r@)
            {
                let is_dname: bool = match &r.rdata {
                    RData::Dname(_) => true,
                    _ => false,
                };
                !is_dname || is_within(&r.name, zone)
            },
        Ghost(in_bailiwick(zone@)),
    );
}

/// Whether the questions are the same, letter case included: what came back
/// is what was sent.
pub fn questions_case_exact(resp: &Vec<Question>, sent: &Vec<Question>) -> (r: bool)
    ensures
        r == (views(resp@) == views(sent@)),
{
    if resp.len() != sent.len() {
        assert(views(resp@).len() != views(sent@).len());
        return false;
    }
    let mut i: usize = 0;
    while i < resp.len()
        invariant
            i <= resp.len(),
            resp.len() == sent.len(),
            forall|j: int| 0 <= j < i ==> #[trigger] views(resp@)[j] == views(sent@)[j],
        decreases resp.len() - i,
    {
        if resp[i].qtype != sent[i].qtype || resp[i].qclass != sent[i].qclass
            || !resp[i].name.eq_exact(&sent[i].name) {
            assert(views(resp@)[i as int] != views(sent@)[i as int]);
            return false;
        }
        assert(views(resp@)[i as int] == views(sent@)[i as int]);
        i = i + 1;
    }
    assert(views(resp@) =~= views(sent@));
    true
}

// ---- what holds of every response ----

/// A DNAME replaces its owner at the end of the name and nothing else: every label in
/// front of it stays where it is, and behind them stand the labels of the target. The
/// alias that stands for it leads from the one name to the other and lives as long. The
/// DNAME is one of the answer section with the longest owner above the name, and no other
/// one at that owner points elsewhere.
pub proof fn law_a_dname_replaces_its_owner_alone(m: MessageView, qname: Seq<Seq<u8>>)
    ensures
        dname_rewrite_of(m, qname) matches Some((d, t, c)) ==> {
            let target = d.rdata->Dname_0;
            let kept = qname.len() - d.name.len();
            &&& m.answers.contains(d)
            &&& d.class == CLASS_IN && d.rdata is Dname
            &&& kept > 0 && within(qname, d.name)
            &&& t.len() + d.name.len() == qname.len() + target.len()
            &&& forall|i: int| 0 <= i < kept ==> #[trigger] t[i] == qname[i]
            &&& forall|i: int| 0 <= i < target.len() ==> t[kept + i] == #[trigger] target[i]
            &&& valid_name(t)
            &&& c.name == qname && c.rdata == RDataView::Cname(t)
            &&& c.rtype == TYPE_CNAME && c.class == CLASS_IN && c.ttl == d.ttl
            &&& forall|i: int|
                0 <= i < m.answers.len() && (#[trigger] m.answers[i]).class == CLASS_IN
                    && m.answers[i].rdata is Dname && m.answers[i].name.len() < qname.len()
                    && within(qname, m.answers[i].name) ==> m.answers[i].name.len()
                    <= d.name.len()
            &&& forall|i: int|
                0 <= i < m.answers.len() && (#[trigger] m.answers[i]).class == CLASS_IN
                    && m.answers[i].rdata is Dname && same_name(m.answers[i].name, d.name)
                    ==> same_name(m.answers[i].rdata->Dname_0, target)
        },
{
    let p = covering_dname(qname);
    law_deepest_owner_wins(m.answers, p);
    if let Some((d, t, c)) = dname_rewrite_of(m, qname) {
        assert(p(d));
        let target = d.rdata->Dname_0;
        assert forall|i: int|
            0 <= i < m.answers.len() && (#[trigger] m.answers[i]).class == CLASS_IN
                && m.answers[i].rdata is Dname && m.answers[i].name.len() < qname.len() && within(
                qname,
                m.answers[i].name,
            ) implies m.answers[i].name.len() <= d.name.len() by {
            assert(p(m.answers[i]));
        }
        assert forall|i: int|
            0 <= i < m.answers.len() && (#[trigger] m.answers[i]).class == CLASS_IN
                && m.answers[i].rdata is Dname && same_name(
                m.answers[i].name,
                d.name,
            ) implies same_name(m.answers[i].rdata->Dname_0, target) by {
            if !same_name(m.answers[i].rdata->Dname_0, target) {
                assert(conflicting_dname(d.name, target)(m.answers[i]));
            }
        }
    }
}

/// A DNAME above the name does rename it: where record `k` is one, none has a longer
/// owner, none at its owner points elsewhere, and the new name is a valid one, there is a
/// new name, and it is that one in any letter case.
pub proof fn law_a_dname_above_the_name_renames_it(m: MessageView, qname: Seq<Seq<u8>>, k: int)
    requires
        0 <= k < m.answers.len(),
        m.answers[k].class == CLASS_IN,
        m.answers[k].rdata is Dname,
        m.answers[k].name.len() < qname.len(),
        within(qname, m.answers[k].name),
        valid_name(
            qname.take(qname.len() - m.answers[k].name.len()) + m.answers[k].rdata->Dname_0,
        ),
        forall|i: int|
            0 <= i < m.answers.len() && (#[trigger] m.answers[i]).class == CLASS_IN
                && m.answers[i].rdata is Dname && m.answers[i].name.len() < qname.len() && within(
                qname,
                m.answers[i].name,
            ) ==> m.answers[i].name.len() <= m.answers[k].name.len(),
        forall|i: int|
            0 <= i < m.answers.len() && (#[trigger] m.answers[i]).class == CLASS_IN
                && m.answers[i].rdata is Dname && same_name(m.answers[i].name, m.answers[k].name)
                ==> same_name(m.answers[i].rdata->Dname_0, m.answers[k].rdata->Dname_0),
    ensures
        dname_rewrite_of(m, qname) matches Some((d, t, c)) && same_name(
            t,
            qname.take(qname.len() - m.answers[k].name.len()) + m.answers[k].rdata->Dname_0,
        ),
{
    let p = covering_dname(qname);
    let x = m.answers[k];
    law_deepest_owner_wins(m.answers, p);
    assert(p(x));
    let d = deepest(m.answers, p)->0;
    let j = choose|j: int| 0 <= j < m.answers.len() && m.answers[j] == d;
    assert(m.answers[j].name.len() <= x.name.len());
    assert(d.name.len() == x.name.len());
    assert(same_name(d.name, x.name));
    let target = d.rdata->Dname_0;
    let wanted = x.rdata->Dname_0;
    assert(same_name(target, wanted));
    if any_of(m.answers, conflicting_dname(d.name, target)) {
        let i = choose|i: int|
            0 <= i < m.answers.len() && conflicting_dname(d.name, target)(#[trigger] m.answers[i]);
        assert(same_name(m.answers[i].rdata->Dname_0, wanted));
    }
    let head = qname.take(qname.len() - d.name.len());
    let t = head + target;
    let w = head + wanted;
    crate::name::law_names_are_compared_octet_by_octet(target, wanted);
    assert(forall|i: int|
        0 <= i < t.len() ==> (#[trigger] t[i]).len() == w[i].len());
    crate::name::lemma_wire_len_by_lengths(t, w);
    assert forall|i: int| 0 <= i < t.len() implies 1 <= (#[trigger] t[i]).len() <= 63 by {
        assert(1 <= w[i].len() <= 63);
    }
    assert forall|i: int, l: int| 0 <= i < t.len() && 0 <= l < t[i].len() implies octets_alike(
        #[trigger] t[i][l],
        w[i][l],
    ) by {
        if i >= head.len() {
            assert(octets_alike(target[i - head.len()][l], wanted[i - head.len()][l]));
        }
    }
    crate::name::law_names_are_compared_octet_by_octet(t, w);
}

/// Two names that one DNAME renames alike are the same name.
pub proof fn law_renaming_keeps_names_apart(
    m: MessageView,
    a: Seq<Seq<u8>>,
    b: Seq<Seq<u8>>,
)
    requires
        dname_rewrite_of(m, a) is Some,
        dname_rewrite_of(m, b) is Some,
        (dname_rewrite_of(m, a)->0).0 == (dname_rewrite_of(m, b)->0).0,
        (dname_rewrite_of(m, a)->0).1 == (dname_rewrite_of(m, b)->0).1,
    ensures
        same_name(a, b),
{
    law_a_dname_replaces_its_owner_alone(m, a);
    law_a_dname_replaces_its_owner_alone(m, b);
    let d = (dname_rewrite_of(m, a)->0).0;
    let t = (dname_rewrite_of(m, a)->0).1;
    let kept = a.len() - d.name.len();
    let e = Seq::<Seq<u8>>::empty();
    crate::name::law_within_means_ending_in_the_zone(a, d.name, e, e);
    crate::name::law_within_means_ending_in_the_zone(b, d.name, e, e);
    assert(a.take(kept) =~= b.take(kept)) by {
        assert forall|i: int| 0 <= i < kept implies a[i] == b[i] by {
            assert(t[i] == a[i]);
            assert(t[i] == b[i]);
        }
    }
}

/// An alias leads where a CNAME at the name says, and every CNAME there says so; beside
/// it the name owns nothing but signatures and denials.
pub proof fn law_an_alias_leads_where_its_record_says(m: MessageView, qname: Seq<Seq<u8>>)
    ensures
        cname_target_of(m, qname) matches Some(t) ==> {
            &&& exists|i: int|
                0 <= i < m.answers.len() && (#[trigger] m.answers[i]).class == CLASS_IN
                    && same_name(m.answers[i].name, qname) && m.answers[i].rdata
                    == RDataView::Cname(t)
            &&& forall|i: int|
                0 <= i < m.answers.len() && (#[trigger] m.answers[i]).class == CLASS_IN
                    && same_name(m.answers[i].name, qname) && m.answers[i].rdata is Cname
                    ==> same_name(m.answers[i].rdata->Cname_0, t)
        },
        cname_target_of(m, qname) is Some && (exists|i: int|
            0 <= i < m.answers.len() && (#[trigger] m.answers[i]).class == CLASS_IN
                && m.answers[i].rtype == TYPE_CNAME && same_name(m.answers[i].name, qname))
            ==> forall|i: int|
            0 <= i < m.answers.len() && (#[trigger] m.answers[i]).class == CLASS_IN && same_name(
                m.answers[i].name,
                qname,
            ) ==> m.answers[i].rtype == TYPE_CNAME || m.answers[i].rtype == TYPE_RRSIG
                || m.answers[i].rtype == TYPE_NSEC,
{
    let p = alias_at(qname);
    let found = m.answers.filter(p);
    lemma_filter_holds(m.answers, p);
    if let Some(t) = cname_target_of(m, qname) {
        let last = found.len() - 1;
        assert(p(found[last]));
        assert(m.answers.contains(found[last]));
        let k = choose|k: int| 0 <= k < m.answers.len() && m.answers[k] == found[last];
        assert(m.answers[k].rdata == RDataView::Cname(t));
        assert forall|i: int|
            0 <= i < m.answers.len() && (#[trigger] m.answers[i]).class == CLASS_IN && same_name(
                m.answers[i].name,
                qname,
            ) && m.answers[i].rdata is Cname implies same_name(m.answers[i].rdata->Cname_0, t) by {
            assert(p(m.answers[i]));
            assert(found.contains(m.answers[i]));
            let j = choose|j: int| 0 <= j < found.len() && found[j] == m.answers[i];
            assert(same_name(found[j].rdata->Cname_0, found[last].rdata->Cname_0));
        }
        if exists|i: int|
            0 <= i < m.answers.len() && (#[trigger] m.answers[i]).class == CLASS_IN
                && m.answers[i].rtype == TYPE_CNAME && same_name(m.answers[i].name, qname) {
            let w = choose|i: int|
                0 <= i < m.answers.len() && (#[trigger] m.answers[i]).class == CLASS_IN
                    && m.answers[i].rtype == TYPE_CNAME && same_name(m.answers[i].name, qname);
            assert(cname_rrset_at(qname)(m.answers[w]));
            assert forall|i: int|
                0 <= i < m.answers.len() && (#[trigger] m.answers[i]).class == CLASS_IN
                    && same_name(m.answers[i].name, qname) implies m.answers[i].rtype == TYPE_CNAME
                || m.answers[i].rtype == TYPE_RRSIG || m.answers[i].rtype == TYPE_NSEC by {
                assert(beside_cname(qname)(m.answers[i]));
            }
        }
    }
}

/// A CNAME at the name is followed: where record `k` is one, all of them there agree, and
/// the name owns nothing else but signatures and denials, the alias leads to its target.
pub proof fn law_a_clear_alias_is_followed(m: MessageView, qname: Seq<Seq<u8>>, k: int)
    requires
        0 <= k < m.answers.len(),
        m.answers[k].class == CLASS_IN,
        m.answers[k].rdata is Cname,
        same_name(m.answers[k].name, qname),
        forall|i: int|
            0 <= i < m.answers.len() && (#[trigger] m.answers[i]).class == CLASS_IN && same_name(
                m.answers[i].name,
                qname,
            ) ==> {
                &&& m.answers[i].rtype == TYPE_CNAME || m.answers[i].rtype == TYPE_RRSIG
                    || m.answers[i].rtype == TYPE_NSEC
                &&& m.answers[i].rdata is Cname ==> same_name(
                    m.answers[i].rdata->Cname_0,
                    m.answers[k].rdata->Cname_0,
                )
            },
    ensures
        cname_owner_valid(m, qname),
        cname_target_of(m, qname) matches Some(t) && same_name(t, m.answers[k].rdata->Cname_0),
{
    let p = alias_at(qname);
    let found = m.answers.filter(p);
    lemma_filter_holds(m.answers, p);
    assert(p(m.answers[k]));
    assert(found.contains(m.answers[k]));
    assert forall|i: int| 0 <= i < found.len() implies same_name(
        (#[trigger] found[i]).rdata->Cname_0,
        m.answers[k].rdata->Cname_0,
    ) by {
        assert(p(found[i]));
        assert(m.answers.contains(found[i]));
        let j = choose|j: int| 0 <= j < m.answers.len() && m.answers[j] == found[i];
        assert(m.answers[j].class == CLASS_IN);
    }
    assert(aliases_agree(found));
    assert forall|i: int| 0 <= i < m.answers.len() implies beside_cname(qname)(
        #[trigger] m.answers[i],
    ) by {}
    assert(all_of(m.answers, beside_cname(qname)));
    assert(found.last() == found[found.len() - 1]);
}

/// Other data beside a CNAME, or two CNAMEs that point to different names, make the owner
/// invalid: neither is followed, and the response answers nothing.
pub proof fn law_unclear_aliases_are_not_followed(
    m: MessageView,
    qname: Seq<Seq<u8>>,
    qtype: u16,
    k: int,
    j: int,
)
    requires
        0 <= k < m.answers.len(),
        0 <= j < m.answers.len(),
        m.answers[k].class == CLASS_IN,
        m.answers[k].rtype == TYPE_CNAME,
        same_name(m.answers[k].name, qname),
        m.answers[j].class == CLASS_IN,
        same_name(m.answers[j].name, qname),
        ({
            ||| m.answers[j].rtype != TYPE_CNAME && m.answers[j].rtype != TYPE_RRSIG
                && m.answers[j].rtype != TYPE_NSEC
            ||| m.answers[j].rdata is Cname && m.answers[k].rdata is Cname && !same_name(
                m.answers[j].rdata->Cname_0,
                m.answers[k].rdata->Cname_0,
            )
        }),
    ensures
        !cname_owner_valid(m, qname),
        cname_target_of(m, qname) is None,
        !relevant_positive(m, qname, qtype),
{
    assert(cname_rrset_at(qname)(m.answers[k]));
    if cname_owner_valid(m, qname) {
        assert(beside_cname(qname)(m.answers[j]));
        let p = alias_at(qname);
        let found = m.answers.filter(p);
        lemma_filter_holds(m.answers, p);
        if m.answers[j].rdata is Cname && m.answers[k].rdata is Cname {
            assert(p(m.answers[j]) && p(m.answers[k]));
            assert(found.contains(m.answers[j]));
            assert(found.contains(m.answers[k]));
            let a = choose|a: int| 0 <= a < found.len() && found[a] == m.answers[j];
            let b = choose|b: int| 0 <= b < found.len() && found[b] == m.answers[k];
            assert(same_name(found[a].rdata->Cname_0, found[b].rdata->Cname_0));
        }
    }
}

/// A referral comes without error, authority or answer. It goes to the deepest zone around
/// the question that the authority section has a name server for; its servers are the
/// ones named there for that very zone, all of them.
pub proof fn law_a_referral_goes_to_the_deepest_zone(m: MessageView, qname: Seq<Seq<u8>>, k: int)
    ensures
        referral_zone(m, qname) matches Some(z) ==> {
            &&& m.header.rcode == RCODE_NOERROR && !m.header.authoritative && m.answers.len() == 0
            &&& within(qname, z)
            &&& exists|i: int|
                0 <= i < m.authorities.len() && (#[trigger] m.authorities[i]).class == CLASS_IN
                    && m.authorities[i].rdata is Ns && m.authorities[i].name == z
        },
        0 <= k < m.authorities.len() && m.authorities[k].class == CLASS_IN
            && m.authorities[k].rdata is Ns && within(qname, m.authorities[k].name)
            && m.header.rcode == RCODE_NOERROR && !m.header.authoritative && m.answers.len() == 0
            ==> (referral_zone(m, qname) matches Some(z) && z.len() >= m.authorities[k].name.len()
            && (z.len() == m.authorities[k].name.len() ==> same_name(z, m.authorities[k].name))),
{
    let p = delegates(qname);
    law_deepest_owner_wins(m.authorities, p);
    if let Some(z) = referral_zone(m, qname) {
        let d = deepest(m.authorities, p)->0;
        assert(p(d));
        let i = choose|i: int| 0 <= i < m.authorities.len() && m.authorities[i] == d;
        assert(m.authorities[i].name == z);
    }
    if 0 <= k < m.authorities.len() && m.authorities[k].class == CLASS_IN
        && m.authorities[k].rdata is Ns && within(qname, m.authorities[k].name) {
        assert(p(m.authorities[k]));
    }
}

/// The servers of a referral are exactly the ones that the authority section names for
/// the zone.
pub proof fn law_a_referral_names_every_server(
    m: MessageView,
    zone: Seq<Seq<u8>>,
    server: Seq<Seq<u8>>,
)
    ensures
        referral_servers(m, zone).contains(server) <==> exists|i: int|
            0 <= i < m.authorities.len() && (#[trigger] m.authorities[i]).class == CLASS_IN
                && same_name(m.authorities[i].name, zone) && m.authorities[i].rdata
                == RDataView::Ns(server),
{
    let p = names_server_of(zone);
    let found = m.authorities.filter(p);
    lemma_filter_holds(m.authorities, p);
    if referral_servers(m, zone).contains(server) {
        let j = choose|j: int|
            0 <= j < referral_servers(m, zone).len() && referral_servers(m, zone)[j] == server;
        assert(p(found[j]));
        assert(m.authorities.contains(found[j]));
        let i = choose|i: int| 0 <= i < m.authorities.len() && m.authorities[i] == found[j];
        assert(m.authorities[i].rdata == RDataView::Ns(server));
    }
    if exists|i: int|
        0 <= i < m.authorities.len() && (#[trigger] m.authorities[i]).class == CLASS_IN
            && same_name(m.authorities[i].name, zone) && m.authorities[i].rdata == RDataView::Ns(
            server,
        ) {
        let i = choose|i: int|
            0 <= i < m.authorities.len() && (#[trigger] m.authorities[i]).class == CLASS_IN
                && same_name(m.authorities[i].name, zone) && m.authorities[i].rdata
                == RDataView::Ns(server);
        assert(p(m.authorities[i]));
        assert(found.contains(m.authorities[i]));
        let j = choose|j: int| 0 <= j < found.len() && found[j] == m.authorities[i];
        assert(referral_servers(m, zone)[j] == server);
    }
}

/// What is held against the answer section: data of the type asked for under the name
/// itself, of any type where any was asked for.
pub proof fn law_a_direct_answer_is_a_record_at_the_name(
    m: MessageView,
    qname: Seq<Seq<u8>>,
    qtype: u16,
)
    ensures
        direct_answer(m, qname, qtype) <==> exists|i: int|
            0 <= i < m.answers.len() && (#[trigger] m.answers[i]).class == CLASS_IN && same_name(
                m.answers[i].name,
                qname,
            ) && (m.answers[i].rtype == qtype || qtype == 255),
{
    if direct_answer(m, qname, qtype) {
        let i = choose|i: int|
            0 <= i < m.answers.len() && answers_directly(qname, qtype)(#[trigger] m.answers[i]);
        assert(m.answers[i].class == CLASS_IN);
    }
    if exists|i: int|
        0 <= i < m.answers.len() && (#[trigger] m.answers[i]).class == CLASS_IN && same_name(
            m.answers[i].name,
            qname,
        ) && (m.answers[i].rtype == qtype || qtype == 255) {
        let i = choose|i: int|
            0 <= i < m.answers.len() && (#[trigger] m.answers[i]).class == CLASS_IN && same_name(
                m.answers[i].name,
                qname,
            ) && (m.answers[i].rtype == qtype || qtype == 255);
        assert(answers_directly(qname, qtype)(m.answers[i]));
    }
}

/// A response answers the question wherever it comes without error and with authority and
/// holds the data asked for, or an alias; never without authority, with an error, or with
/// neither.
pub proof fn law_what_answers_a_question(m: MessageView, qname: Seq<Seq<u8>>, qtype: u16)
    ensures
        relevant_positive(m, qname, qtype) ==> m.header.authoritative && m.header.rcode
            == RCODE_NOERROR && (direct_answer(m, qname, qtype) || cname_target_of(m, qname) is Some
            || dname_rewrite_of(m, qname) is Some),
        m.header.authoritative && m.header.rcode == RCODE_NOERROR && cname_target_of(m, qname)
            is Some ==> relevant_positive(m, qname, qtype),
        m.header.authoritative && m.header.rcode == RCODE_NOERROR && (direct_answer(
            m,
            qname,
            qtype,
        ) || dname_rewrite_of(m, qname) is Some) && (forall|i: int|
            0 <= i < m.answers.len() && (#[trigger] m.answers[i]).class == CLASS_IN && same_name(
                m.answers[i].name,
                qname,
            ) ==> m.answers[i].rtype != TYPE_CNAME) ==> relevant_positive(m, qname, qtype),
{
    if any_of(m.answers, cname_rrset_at(qname)) {
        let i = choose|i: int|
            0 <= i < m.answers.len() && cname_rrset_at(qname)(#[trigger] m.answers[i]);
        assert(m.answers[i].class == CLASS_IN && same_name(m.answers[i].name, qname));
    }
}

/// A denial is believed exactly from a server that speaks with authority and shows the
/// start of authority of the zone asked, around the question.
pub proof fn law_who_may_deny(m: MessageView, qname: Seq<Seq<u8>>, zone: Seq<Seq<u8>>)
    ensures
        authoritative_negative(m, qname, zone) <==> {
            &&& m.header.authoritative
            &&& within(qname, zone)
            &&& exists|i: int|
                0 <= i < m.authorities.len() && (#[trigger] m.authorities[i]).class == CLASS_IN
                    && m.authorities[i].rtype == TYPE_SOA && same_name(m.authorities[i].name, zone)
        },
        terminal(m, qname, zone) <==> authoritative_negative(m, qname, zone) && m.header.rcode == 0,
{
    if any_of(m.authorities, soa_at(zone)) {
        let i = choose|i: int|
            0 <= i < m.authorities.len() && soa_at(zone)(#[trigger] m.authorities[i]);
        assert(m.authorities[i].class == CLASS_IN);
    }
    if exists|i: int|
        0 <= i < m.authorities.len() && (#[trigger] m.authorities[i]).class == CLASS_IN
            && m.authorities[i].rtype == TYPE_SOA && same_name(m.authorities[i].name, zone) {
        let i = choose|i: int|
            0 <= i < m.authorities.len() && (#[trigger] m.authorities[i]).class == CLASS_IN
                && m.authorities[i].rtype == TYPE_SOA && same_name(m.authorities[i].name, zone);
        assert(soa_at(zone)(m.authorities[i]));
    }
}

/// A renaming that grows too long is told by an authoritative server with its own code
/// and the DNAME above the name.
pub proof fn law_who_may_say_that_a_name_grows_too_long(m: MessageView, qname: Seq<Seq<u8>>)
    ensures
        dname_overflow(m, qname) <==> {
            &&& m.header.authoritative
            &&& m.header.rcode == 6
            &&& exists|i: int|
                0 <= i < m.answers.len() && (#[trigger] m.answers[i]).class == CLASS_IN
                    && m.answers[i].rdata is Dname && m.answers[i].name.len() < qname.len()
                    && within(qname, m.answers[i].name)
        },
{
    let p = covering_dname(qname);
    if any_of(m.answers, p) {
        let i = choose|i: int| 0 <= i < m.answers.len() && p(#[trigger] m.answers[i]);
        assert(within(qname, m.answers[i].name));
    }
    if exists|i: int|
        0 <= i < m.answers.len() && (#[trigger] m.answers[i]).class == CLASS_IN
            && m.answers[i].rdata is Dname && m.answers[i].name.len() < qname.len() && within(
            qname,
            m.answers[i].name,
        ) {
        let i = choose|i: int|
            0 <= i < m.answers.len() && (#[trigger] m.answers[i]).class == CLASS_IN
                && m.answers[i].rdata is Dname && m.answers[i].name.len() < qname.len() && within(
                qname,
                m.answers[i].name,
            );
        assert(p(m.answers[i]));
    }
}

/// A response that belongs to the query is of use exactly where it answers, denies with
/// authority, refers closer, or says that a name grows too long; one with another number
/// or another question never is, nor one with a code that another server may do better
/// with.
pub proof fn law_which_responses_are_of_use(
    m: MessageView,
    sent: MessageView,
    zone: Seq<Seq<u8>>,
)
    requires
        sent.questions.len() > 0,
    ensures
        ({
            let q = sent.questions[0];
            let belongs = m.header.id == sent.header.id && same_questions(
                m.questions,
                sent.questions,
            );
            &&& usable(m, sent, zone) ==> belongs
            &&& belongs && relevant_positive(m, q.name, q.qtype) ==> usable(m, sent, zone)
            &&& belongs && authoritative_negative(m, q.name, zone) && (m.header.rcode == 0
                || m.header.rcode == 3) ==> usable(m, sent, zone)
            &&& belongs && dname_overflow(m, q.name) ==> usable(m, sent, zone)
            &&& belongs && (referral_zone(m, q.name) matches Some(z) && z.len() > zone.len()
                && within(z, zone)) ==> usable(m, sent, zone)
            &&& usable(m, sent, zone) ==> {
                ||| relevant_positive(m, q.name, q.qtype)
                ||| authoritative_negative(m, q.name, zone) && (m.header.rcode == 0
                    || m.header.rcode == 3)
                ||| dname_overflow(m, q.name)
                ||| referral_zone(m, q.name) matches Some(z) && z.len() > zone.len() && within(
                    z,
                    zone,
                )
            }
            &&& m.header.rcode == 1 || m.header.rcode == 2 || m.header.rcode == 4 || m.header.rcode
                == 5 ==> !usable(m, sent, zone) && retryable(m.header.rcode)
            &&& retryable(m.header.rcode) ==> 1 <= m.header.rcode <= 5 && m.header.rcode != 3
        }),
{
}

/// Questions belong together exactly if there are as many of them, each of the same type
/// and class and of the same name in any letter case.
pub proof fn law_questions_are_held_against_each_other(
    a: Seq<QuestionView>,
    b: Seq<QuestionView>,
    i: int,
)
    ensures
        same_questions(a, a),
        same_questions(a, b) ==> a.len() == b.len() && same_questions(b, a),
        same_questions(a, b) && 0 <= i < a.len() ==> a[i].qtype == b[i].qtype && a[i].qclass
            == b[i].qclass && same_name(a[i].name, b[i].name),
        0 <= i < a.len() && a.len() == b.len() && (a[i].qtype != b[i].qtype || a[i].qclass
            != b[i].qclass || !same_name(a[i].name, b[i].name)) ==> !same_questions(a, b),
{
    if same_questions(a, b) {
        assert forall|k: int| 0 <= k < b.len() implies {
            let q = #[trigger] b[k];
            q.qtype == a[k].qtype && q.qclass == a[k].qclass && same_name(q.name, a[k].name)
        } by {
            assert(a[k].qtype == b[k].qtype);
        }
    }
}

/// Cleaning a response keeps its header and its question. Of an answer it keeps exactly
/// the records asked for and the signatures over them; of a denial exactly what stands in
/// the zone: its start of authority, the records that deny, and the signatures over
/// these; of the rest nothing but the extensions.
pub proof fn law_cleaning_keeps_what_counts(
    m: MessageView,
    qname: Seq<Seq<u8>>,
    qtype: u16,
    positive: bool,
    zone: Seq<Seq<u8>>,
    r: RecordView,
)
    ensures
        ({
            let c = sanitized(m, qname, qtype, positive, Some(zone));
            let covered = r.rdata->Rrsig_0.type_covered;
            let signature = r.rtype == TYPE_RRSIG && r.rdata is Rrsig;
            &&& c.header == m.header && c.questions == m.questions
            &&& c.answers.contains(r) <==> positive && m.answers.contains(r) && r.class == CLASS_IN
                && same_name(r.name, qname) && (r.rtype == qtype || qtype == 255 || signature
                && covered == qtype)
            &&& c.authorities.contains(r) <==> !positive && m.authorities.contains(r) && r.class
                == CLASS_IN && within(r.name, zone) && {
                ||| r.rtype == TYPE_NSEC || r.rtype == TYPE_NSEC3
                ||| r.rtype == TYPE_SOA && same_name(r.name, zone)
                ||| signature && (covered == TYPE_NSEC || covered == TYPE_NSEC3)
                ||| signature && covered == TYPE_SOA && same_name(r.name, zone)
            }
            &&& c.additionals.contains(r) <==> m.additionals.contains(r) && r.rtype == TYPE_OPT
        }),
        sanitized(m, qname, qtype, false, None).authorities.len() == 0,
{
    lemma_filter_members(m.answers, kept_answer(qname, qtype), r);
    lemma_filter_members(m.authorities, kept_denial(Some(zone)), r);
    lemma_filter_members(m.additionals, is_opt(), r);
    lemma_filter_holds(m.authorities, kept_denial(None));
    let none = m.authorities.filter(kept_denial(None));
    if none.len() > 0 {
        assert(kept_denial(None)(none[0]));
    }
    assert(!Seq::<RecordView>::empty().contains(r));
}

/// Out of a final response only renamings are dropped, and of these exactly the ones
/// whose owner lies outside the zone asked.
pub proof fn law_only_foreign_renamings_are_dropped(
    m: MessageView,
    zone: Seq<Seq<u8>>,
    r: RecordView,
)
    ensures
        ({
            let c = stripped(m, zone);
            &&& c.header == m.header && c.questions == m.questions
            &&& c.authorities == m.authorities && c.additionals == m.additionals
            &&& c.answers.contains(r) <==> m.answers.contains(r) && (r.rdata is Dname ==> within(
                r.name,
                zone,
            ))
        }),
{
    lemma_filter_members(m.answers, in_bailiwick(zone), r);
}

/// Which alias is followed before the question is answered: none after a denial, else a
/// renaming from above, else a CNAME at the name unless the data asked for is there. It
/// goes with the records that show it and the signatures over these.
pub proof fn law_which_alias_is_followed(
    m: MessageView,
    qname: Seq<Seq<u8>>,
    qtype: u16,
    r: RecordView,
)
    ensures
        m.header.rcode == 3 ==> alias_hop_of(m, qname, qtype) is None,
        m.header.rcode != 3 ==> match (
            dname_rewrite_of(m, qname),
            direct_answer(m, qname, qtype),
            cname_target_of(m, qname),
        ) {
            (Some((d, t, c)), _, _) => alias_hop_of(m, qname, qtype) matches Some(h) && h.target == t
                && h.owner == d.name && h.atype == TYPE_DNAME && (h.records.contains(r) <==> r == c
                || m.answers.contains(r) && r.class == CLASS_IN && same_name(r.name, d.name) && (
            r.rtype == TYPE_DNAME || r.rtype == TYPE_RRSIG && r.rdata is Rrsig
                && r.rdata->Rrsig_0.type_covered == TYPE_DNAME)),
            (None, false, Some(t)) => alias_hop_of(m, qname, qtype) matches Some(h) && h.target == t
                && h.owner == qname && h.atype == TYPE_CNAME && (h.records.contains(r)
                <==> m.answers.contains(r) && r.class == CLASS_IN && same_name(r.name, qname) && (
            r.rtype == TYPE_CNAME || r.rtype == TYPE_RRSIG && r.rdata is Rrsig
                && r.rdata->Rrsig_0.type_covered == TYPE_CNAME)),
            _ => alias_hop_of(m, qname, qtype) is None,
        },
{
    if m.header.rcode != 3 {
        if let Some((d, t, c)) = dname_rewrite_of(m, qname) {
            let p = alias_set_at(d.name, TYPE_DNAME);
            let set = m.answers.filter(p);
            lemma_filter_members(m.answers, p, r);
            let all = set.push(c);
            assert(all[set.len() as int] == c);
            if set.contains(r) {
                let i = choose|i: int| 0 <= i < set.len() && set[i] == r;
                assert(all[i] == r);
            }
            if all.contains(r) && r != c {
                let i = choose|i: int| 0 <= i < all.len() && all[i] == r;
                assert(set[i] == r);
            }
        } else {
            lemma_filter_members(m.answers, alias_set_at(qname, TYPE_CNAME), r);
        }
    }
}

/// A candidate is closer exactly if it has further labels in front of the zone's name; no
/// zone is closer than itself or than a zone below it.
pub proof fn law_closer_means_strictly_below(a: Seq<Seq<u8>>, b: Seq<Seq<u8>>)
    ensures
        closer(a, b) <==> within(a, b) && a.len() > b.len(),
        !closer(a, a),
        closer(a, b) ==> !closer(b, a),
{
}

/// The smaller of two lifetimes counts, and one alone counts by itself.
pub proof fn law_the_smaller_lifetime_counts(a: Option<u32>, b: Option<u32>)
    ensures
        min_ttl(a, b) is None <==> a is None && b is None,
        min_ttl(a, b) matches Some(t) ==> (a == Some(t) || b == Some(t)) && (a matches Some(x) ==> t
            <= x) && (b matches Some(y) ==> t <= y),
{
}

} // verus!
