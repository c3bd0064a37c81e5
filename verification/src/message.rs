//! DNS messages as plain values: the parts of header, questions and records
//! that the decisions read.

use vstd::prelude::*;

use crate::addr::{Ipv4Addr, Ipv6Addr};
use crate::name::Name;
use crate::seqs::{replicate_all, views, Replicate};

verus! {

pub const TYPE_A: u16 = 1;
pub const TYPE_NS: u16 = 2;
pub const TYPE_CNAME: u16 = 5;
pub const TYPE_SOA: u16 = 6;
pub const TYPE_AAAA: u16 = 28;
pub const TYPE_DNAME: u16 = 39;
pub const TYPE_OPT: u16 = 41;
pub const TYPE_DS: u16 = 43;
pub const TYPE_RRSIG: u16 = 46;
pub const TYPE_NSEC: u16 = 47;
pub const TYPE_DNSKEY: u16 = 48;
pub const TYPE_NSEC3: u16 = 50;
pub const TYPE_ANY: u16 = 255;

pub const CLASS_IN: u16 = 1;

pub const RCODE_NOERROR: u16 = 0;
pub const RCODE_FORMERR: u16 = 1;
pub const RCODE_SERVFAIL: u16 = 2;
pub const RCODE_NXDOMAIN: u16 = 3;
pub const RCODE_NOTIMP: u16 = 4;
pub const RCODE_REFUSED: u16 = 5;
pub const RCODE_YXDOMAIN: u16 = 6;

/// The option code of an extended error.
pub const OPTION_EDE: u16 = 15;

/// Extended error: a signature or a proof does not hold.
pub const EDE_DNSSEC_BOGUS: u16 = 6;

/// Extended error: hashed denial asks for more rounds than are computed here.
pub const EDE_UNSUPPORTED_NSEC3_ITERATIONS: u16 = 27;

#[derive(Clone, Copy, PartialEq, Eq, Structural, Debug)]
pub struct Header {
    pub id: u16,
    pub response: bool,
    pub opcode: u8,
    pub authoritative: bool,
    pub truncated: bool,
    pub recursion_desired: bool,
    pub recursion_available: bool,
    pub authentic_data: bool,
    pub checking_disabled: bool,
    pub rcode: u16,
}

/// A header with every flag off and every number zero.
pub open spec fn blank_header() -> Header {
    Header {
        id: 0,
        response: false,
        opcode: 0,
        authoritative: false,
        truncated: false,
        recursion_desired: false,
        recursion_available: false,
        authentic_data: false,
        checking_disabled: false,
        rcode: RCODE_NOERROR,
    }
}

impl Default for Header {
    fn default() -> (r: Self)
        ensures
            r == blank_header(),
    {
        Header {
            id: 0,
            response: false,
            opcode: 0,
            authoritative: false,
            truncated: false,
            recursion_desired: false,
            recursion_available: false,
            authentic_data: false,
            checking_disabled: false,
            rcode: RCODE_NOERROR,
        }
    }
}

#[derive(PartialEq, Eq, Debug)]
pub struct Question {
    pub name: Name,
    pub qtype: u16,
    pub qclass: u16,
}

pub struct QuestionView {
    pub name: Seq<Seq<u8>>,
    pub qtype: u16,
    pub qclass: u16,
}

impl View for Question {
    type V = QuestionView;

    open spec fn view(&self) -> QuestionView {
        QuestionView { name: self.name@, qtype: self.qtype, qclass: self.qclass }
    }
}

#[derive(PartialEq, Eq, Debug)]
pub struct Soa {
    pub mname: Name,
    pub rname: Name,
    pub serial: u32,
    pub refresh: u32,
    pub retry: u32,
    pub expire: u32,
    pub minimum: u32,
}

pub struct SoaView {
    pub mname: Seq<Seq<u8>>,
    pub rname: Seq<Seq<u8>>,
    pub serial: u32,
    pub refresh: u32,
    pub retry: u32,
    pub expire: u32,
    pub minimum: u32,
}

impl View for Soa {
    type V = SoaView;

    open spec fn view(&self) -> SoaView {
        SoaView {
            mname: self.mname@,
            rname: self.rname@,
            serial: self.serial,
            refresh: self.refresh,
            retry: self.retry,
            expire: self.expire,
            minimum: self.minimum,
        }
    }
}

/// A delegation signer record.
#[derive(PartialEq, Eq, Debug)]
pub struct Ds {
    pub key_tag: u16,
    pub algorithm: u8,
    pub digest_type: u8,
    pub digest: Vec<u8>,
}

pub struct DsView {
    pub key_tag: u16,
    pub algorithm: u8,
    pub digest_type: u8,
    pub digest: Seq<u8>,
}

impl View for Ds {
    type V = DsView;

    open spec fn view(&self) -> DsView {
        DsView {
            key_tag: self.key_tag,
            algorithm: self.algorithm,
            digest_type: self.digest_type,
            digest: self.digest@,
        }
    }
}

/// A zone's public key.
#[derive(PartialEq, Eq, Debug)]
pub struct Dnskey {
    pub flags: u16,
    pub protocol: u8,
    pub algorithm: u8,
    pub public_key: Vec<u8>,
}

pub struct DnskeyView {
    pub flags: u16,
    pub protocol: u8,
    pub algorithm: u8,
    pub public_key: Seq<u8>,
}

impl View for Dnskey {
    type V = DnskeyView;

    open spec fn view(&self) -> DnskeyView {
        DnskeyView {
            flags: self.flags,
            protocol: self.protocol,
            algorithm: self.algorithm,
            public_key: self.public_key@,
        }
    }
}

/// A signature over one record set.
#[derive(PartialEq, Eq, Debug)]
pub struct Rrsig {
    pub type_covered: u16,
    pub algorithm: u8,
    pub labels: u8,
    pub original_ttl: u32,
    pub expiration: u32,
    pub inception: u32,
    pub key_tag: u16,
    pub signer: Name,
    pub signature: Vec<u8>,
}

pub struct RrsigView {
    pub type_covered: u16,
    pub algorithm: u8,
    pub labels: u8,
    pub original_ttl: u32,
    pub expiration: u32,
    pub inception: u32,
    pub key_tag: u16,
    pub signer: Seq<Seq<u8>>,
    pub signature: Seq<u8>,
}

impl View for Rrsig {
    type V = RrsigView;

    open spec fn view(&self) -> RrsigView {
        RrsigView {
            type_covered: self.type_covered,
            algorithm: self.algorithm,
            labels: self.labels,
            original_ttl: self.original_ttl,
            expiration: self.expiration,
            inception: self.inception,
            key_tag: self.key_tag,
            signer: self.signer@,
            signature: self.signature@,
        }
    }
}

/// One option of an EDNS record.
#[derive(PartialEq, Eq, Debug)]
pub struct EdnsOption {
    pub code: u16,
    pub data: Vec<u8>,
}

pub struct EdnsOptionView {
    pub code: u16,
    pub data: Seq<u8>,
}

impl View for EdnsOption {
    type V = EdnsOptionView;

    open spec fn view(&self) -> EdnsOptionView {
        EdnsOptionView { code: self.code, data: self.data@ }
    }
}

/// What an EDNS record says.
#[derive(PartialEq, Eq, Debug)]
pub struct Edns {
    pub udp_payload: u16,
    pub extended_rcode: u8,
    pub version: u8,
    pub dnssec_ok: bool,
    pub options: Vec<EdnsOption>,
}

pub struct EdnsView {
    pub udp_payload: u16,
    pub extended_rcode: u8,
    pub version: u8,
    pub dnssec_ok: bool,
    pub options: Seq<EdnsOptionView>,
}

impl View for Edns {
    type V = EdnsView;

    open spec fn view(&self) -> EdnsView {
        EdnsView {
            udp_payload: self.udp_payload,
            extended_rcode: self.extended_rcode,
            version: self.version,
            dnssec_ok: self.dnssec_ok,
            options: views(self.options@),
        }
    }
}

/// The data of a record. What no decision looks into is kept as octets under
/// its type number.
#[derive(PartialEq, Eq, Debug)]
pub enum RData {
    A(Ipv4Addr),
    Aaaa(Ipv6Addr),
    Ns(Name),
    Cname(Name),
    Dname(Name),
    Soa(Soa),
    Ds(Ds),
    Dnskey(Dnskey),
    Rrsig(Rrsig),
    Opt(Edns),
    Unknown(u16, Vec<u8>),
}

pub enum RDataView {
    A(Ipv4Addr),
    Aaaa(Ipv6Addr),
    Ns(Seq<Seq<u8>>),
    Cname(Seq<Seq<u8>>),
    Dname(Seq<Seq<u8>>),
    Soa(SoaView),
    Ds(DsView),
    Dnskey(DnskeyView),
    Rrsig(RrsigView),
    Opt(EdnsView),
    Unknown(u16, Seq<u8>),
}

impl View for RData {
    type V = RDataView;

    open spec fn view(&self) -> RDataView {
        match self {
            RData::A(a) => RDataView::A(*a),
            RData::Aaaa(a) => RDataView::Aaaa(*a),
            RData::Ns(n) => RDataView::Ns(n@),
            RData::Cname(n) => RDataView::Cname(n@),
            RData::Dname(n) => RDataView::Dname(n@),
            RData::Soa(s) => RDataView::Soa(s@),
            RData::Ds(d) => RDataView::Ds(d@),
            RData::Dnskey(k) => RDataView::Dnskey(k@),
            RData::Rrsig(s) => RDataView::Rrsig(s@),
            RData::Opt(e) => RDataView::Opt(e@),
            RData::Unknown(t, d) => RDataView::Unknown(*t, d@),
        }
    }
}

/// The type number that goes with the data.
pub open spec fn rtype_of(d: RDataView) -> u16 {
    match d {
        RDataView::A(_) => TYPE_A,
        RDataView::Aaaa(_) => TYPE_AAAA,
        RDataView::Ns(_) => TYPE_NS,
        RDataView::Cname(_) => TYPE_CNAME,
        RDataView::Dname(_) => TYPE_DNAME,
        RDataView::Soa(_) => TYPE_SOA,
        RDataView::Ds(_) => TYPE_DS,
        RDataView::Dnskey(_) => TYPE_DNSKEY,
        RDataView::Rrsig(_) => TYPE_RRSIG,
        RDataView::Opt(_) => TYPE_OPT,
        RDataView::Unknown(t, _) => t,
    }
}

#[derive(PartialEq, Eq, Debug)]
pub struct Record {
    pub name: Name,
    pub rtype: u16,
    pub class: u16,
    pub ttl: u32,
    pub rdata: RData,
}

pub struct RecordView {
    pub name: Seq<Seq<u8>>,
    pub rtype: u16,
    pub class: u16,
    pub ttl: u32,
    pub rdata: RDataView,
}

impl View for Record {
    type V = RecordView;

    open spec fn view(&self) -> RecordView {
        RecordView {
            name: self.name@,
            rtype: self.rtype,
            class: self.class,
            ttl: self.ttl,
            rdata: self.rdata@,
        }
    }
}

#[derive(PartialEq, Eq, Debug)]
pub struct Message {
    pub header: Header,
    pub questions: Vec<Question>,
    pub answers: Vec<Record>,
    pub authorities: Vec<Record>,
    pub additionals: Vec<Record>,
}

pub struct MessageView {
    pub header: Header,
    pub questions: Seq<QuestionView>,
    pub answers: Seq<RecordView>,
    pub authorities: Seq<RecordView>,
    pub additionals: Seq<RecordView>,
}

impl View for Message {
    type V = MessageView;

    open spec fn view(&self) -> MessageView {
        MessageView {
            header: self.header,
            questions: views(self.questions@),
            answers: views(self.answers@),
            authorities: views(self.authorities@),
            additionals: views(self.additionals@),
        }
    }
}

pub(crate) fn copy_octets(v: &Vec<u8>) -> (r: Vec<u8>)
    ensures
        r@ == v@,
{
    let mut r: Vec<u8> = Vec::new();
    r.extend_from_slice(v.as_slice());
    assert(r@ =~= v@);
    r
}

impl Replicate for Name {
    fn replicate(&self) -> (r: Self) {
        self.clone()
    }
}

impl Replicate for Question {
    fn replicate(&self) -> (r: Self) {
        Question { name: self.name.clone(), qtype: self.qtype, qclass: self.qclass }
    }
}

impl Replicate for Soa {
    fn replicate(&self) -> (r: Self) {
        Soa {
            mname: self.mname.clone(),
            rname: self.rname.clone(),
            serial: self.serial,
            refresh: self.refresh,
            retry: self.retry,
            expire: self.expire,
            minimum: self.minimum,
        }
    }
}

impl Replicate for Ds {
    fn replicate(&self) -> (r: Self) {
        Ds {
            key_tag: self.key_tag,
            algorithm: self.algorithm,
            digest_type: self.digest_type,
            digest: copy_octets(&self.digest),
        }
    }
}

impl Replicate for Dnskey {
    fn replicate(&self) -> (r: Self) {
        Dnskey {
            flags: self.flags,
            protocol: self.protocol,
            algorithm: self.algorithm,
            public_key: copy_octets(&self.public_key),
        }
    }
}

impl Replicate for Rrsig {
    fn replicate(&self) -> (r: Self) {
        Rrsig {
            type_covered: self.type_covered,
            algorithm: self.algorithm,
            labels: self.labels,
            original_ttl: self.original_ttl,
            expiration: self.expiration,
            inception: self.inception,
            key_tag: self.key_tag,
            signer: self.signer.clone(),
            signature: copy_octets(&self.signature),
        }
    }
}

impl Replicate for EdnsOption {
    fn replicate(&self) -> (r: Self) {
        EdnsOption { code: self.code, data: copy_octets(&self.data) }
    }
}

impl Replicate for Edns {
    fn replicate(&self) -> (r: Self) {
        Edns {
            udp_payload: self.udp_payload,
            extended_rcode: self.extended_rcode,
            version: self.version,
            dnssec_ok: self.dnssec_ok,
            options: replicate_all(&self.options),
        }
    }
}

impl Replicate for RData {
    fn replicate(&self) -> (r: Self) {
        match self {
            RData::A(a) => RData::A(*a),
            RData::Aaaa(a) => RData::Aaaa(*a),
            RData::Ns(n) => RData::Ns(n.clone()),
            RData::Cname(n) => RData::Cname(n.clone()),
            RData::Dname(n) => RData::Dname(n.clone()),
            RData::Soa(s) => RData::Soa(s.replicate()),
            RData::Ds(d) => RData::Ds(d.replicate()),
            RData::Dnskey(k) => RData::Dnskey(k.replicate()),
            RData::Rrsig(s) => RData::Rrsig(s.replicate()),
            RData::Opt(e) => RData::Opt(e.replicate()),
            RData::Unknown(t, d) => RData::Unknown(*t, copy_octets(d)),
        }
    }
}

impl Replicate for Record {
    fn replicate(&self) -> (r: Self) {
        Record {
            name: self.name.clone(),
            rtype: self.rtype,
            class: self.class,
            ttl: self.ttl,
            rdata: self.rdata.replicate(),
        }
    }
}

impl Replicate for Message {
    fn replicate(&self) -> (r: Self) {
        Message {
            header: self.header,
            questions: replicate_all(&self.questions),
            answers: replicate_all(&self.answers),
            authorities: replicate_all(&self.authorities),
            additionals: replicate_all(&self.additionals),
        }
    }
}

impl Clone for Ds {
    fn clone(&self) -> (r: Self)
        ensures
            r@ == self@,
    {
        self.replicate()
    }
}

impl Clone for Rrsig {
    fn clone(&self) -> (r: Self)
        ensures
            r@ == self@,
    {
        self.replicate()
    }
}

impl Clone for Record {
    fn clone(&self) -> (r: Self)
        ensures
            r@ == self@,
    {
        self.replicate()
    }
}

impl Clone for Message {
    fn clone(&self) -> (r: Self)
        ensures
            r@ == self@,
    {
        self.replicate()
    }
}

impl RData {
    /// The type number that goes with the data.
    pub fn rtype(&self) -> (r: u16)
        ensures
            r == rtype_of(self@),
    {
        match self {
            RData::A(_) => TYPE_A,
            RData::Aaaa(_) => TYPE_AAAA,
            RData::Ns(_) => TYPE_NS,
            RData::Cname(_) => TYPE_CNAME,
            RData::Dname(_) => TYPE_DNAME,
            RData::Soa(_) => TYPE_SOA,
            RData::Ds(_) => TYPE_DS,
            RData::Dnskey(_) => TYPE_DNSKEY,
            RData::Rrsig(_) => TYPE_RRSIG,
            RData::Opt(_) => TYPE_OPT,
            RData::Unknown(t, _) => *t,
        }
    }
}

/// A record of the Internet class whose type follows from its data.
pub open spec fn in_record(name: Seq<Seq<u8>>, ttl: u32, rdata: RDataView) -> RecordView {
    RecordView { name, rtype: rtype_of(rdata), class: CLASS_IN, ttl, rdata }
}

impl Record {
    pub fn new(name: Name, ttl: u32, rdata: RData) -> (r: Record)
        ensures
            r@ == in_record(name@, ttl, rdata@),
    {
        let rtype: u16 = rdata.rtype();
        Record { name, rtype, class: CLASS_IN, ttl, rdata }
    }
}

/// A message with a blank header and nothing in it.
pub open spec fn blank_message() -> MessageView {
    MessageView {
        header: blank_header(),
        questions: Seq::empty(),
        answers: Seq::empty(),
        authorities: Seq::empty(),
        additionals: Seq::empty(),
    }
}

impl Default for Message {
    fn default() -> (r: Self)
        ensures
            r@ == blank_message(),
    {
        let r = Message {
            header: Header::default(),
            questions: Vec::new(),
            answers: Vec::new(),
            authorities: Vec::new(),
            additionals: Vec::new(),
        };
        assert(r@.questions =~= Seq::<QuestionView>::empty());
        assert(r@.answers =~= Seq::<RecordView>::empty());
        assert(r@.authorities =~= Seq::<RecordView>::empty());
        assert(r@.additionals =~= Seq::<RecordView>::empty());
        r
    }
}

/// A question of the Internet class.
pub open spec fn in_question(name: Seq<Seq<u8>>, qtype: u16) -> QuestionView {
    QuestionView { name, qtype, qclass: CLASS_IN }
}

impl Message {
    /// A query that asks for recursion, with one question and nothing else.
    pub fn query(id: u16, name: Name, qtype: u16) -> (r: Message)
        ensures
            r@ == (MessageView {
                header: Header { id, recursion_desired: true, ..blank_header() },
                questions: seq![in_question(name@, qtype)],
                ..blank_message()
            }),
    {
        let mut r = Message::default();
        r.header.id = id;
        r.header.recursion_desired = true;
        let ghost q = in_question(name@, qtype);
        r.questions.push(Question { name, qtype, qclass: CLASS_IN });
        assert(r@.questions =~= seq![q]);
        r
    }

    /// The first EDNS record of the additional section, if there is one.
    pub fn opt(&self) -> (r: Option<&Edns>)
        ensures
            r matches Some(e) ==> first_edns(self@.additionals) == Some(e@),
            r is None ==> first_edns(self@.additionals) is None,
    {
        let mut i: usize = 0;
        assert(self@.additionals.skip(0) =~= self@.additionals);
        while i < self.additionals.len()
            invariant
                i <= self.additionals.len(),
                first_edns(self@.additionals) == first_edns(self@.additionals.skip(i as int)),
            decreases self.additionals.len() - i,
        {
            proof {
                let rest = self@.additionals.skip(i as int);
                assert(rest[0] == self.additionals@[i as int]@);
                assert(rest.skip(1) =~= self@.additionals.skip(i + 1));
            }
            if let RData::Opt(e) = &self.additionals[i].rdata {
                return Some(e);
            }
            i = i + 1;
        }
        None
    }
}

pub open spec fn first_edns(records: Seq<RecordView>) -> Option<EdnsView>
    decreases records.len(),
{
    if records.len() == 0 {
        None
    } else {
        match records[0].rdata {
            RDataView::Opt(e) => Some(e),
            _ => first_edns(records.skip(1)),
        }
    }
}

/// An EDNS record: owned by the root, with the payload size where the class
/// stands and the flags where the lifetime stands.
pub open spec fn edns_record(e: EdnsView) -> RecordView {
    RecordView {
        name: Seq::empty(),
        rtype: TYPE_OPT,
        class: e.udp_payload,
        ttl: (e.extended_rcode * 0x100_0000 + e.version * 0x1_0000 + if e.dnssec_ok {
            0x8000int
        } else {
            0
        }) as u32,
        rdata: RDataView::Opt(e),
    }
}

impl Edns {
    pub fn to_record(self) -> (r: Record)
        ensures
            r@ == edns_record(self@),
    {
        let flag: u32 = if self.dnssec_ok {
            0x8000
        } else {
            0
        };
        let ttl: u32 = self.extended_rcode as u32 * 0x100_0000 + self.version as u32 * 0x1_0000 + flag;
        Record {
            name: Name::root(),
            rtype: TYPE_OPT,
            class: self.udp_payload,
            ttl,
            rdata: RData::Opt(self),
        }
    }

    /// The code and the text of the first extended error, if there is one.
    pub fn ede(&self) -> (r: Option<(u16, Vec<u8>)>)
        ensures
            r matches Some(e) ==> first_ede(views(self.options@)) == Some((e.0, e.1@)),
            r is None ==> first_ede(views(self.options@)) is None,
    {
        let mut i: usize = 0;
        let ghost all = views(self.options@);
        assert(all.skip(0) =~= all);
        while i < self.options.len()
            invariant
                i <= self.options.len(),
                all == views(self.options@),
                first_ede(all) == first_ede(all.skip(i as int)),
            decreases self.options.len() - i,
        {
            let o = &self.options[i];
            proof {
                let rest = all.skip(i as int);
                assert(rest[0] == o@);
                assert(rest.skip(1) =~= all.skip(i + 1));
            }
            if o.code == OPTION_EDE && o.data.len() >= 2 {
                let code: u16 = o.data[0] as u16 * 256 + o.data[1] as u16;
                let mut text: Vec<u8> = Vec::new();
                let mut k: usize = 2;
                while k < o.data.len()
                    invariant
                        2 <= k <= o.data.len(),
                        text@ =~= o.data@.subrange(2, k as int),
                    decreases o.data.len() - k,
                {
                    text.push(o.data[k]);
                    k = k + 1;
                }
                assert(text@ =~= o.data@.skip(2));
                return Some((code, text));
            }
            i = i + 1;
        }
        None
    }
}

pub open spec fn first_ede(options: Seq<EdnsOptionView>) -> Option<(u16, Seq<u8>)>
    decreases options.len(),
{
    if options.len() == 0 {
        None
    } else if options[0].code == OPTION_EDE && options[0].data.len() >= 2 {
        Some(
            (
                (options[0].data[0] * 256 + options[0].data[1]) as u16,
                options[0].data.skip(2),
            ),
        )
    } else {
        first_ede(options.skip(1))
    }
}

/// The numbers that stand on the wire for types, classes, codes and options.
pub proof fn law_codes_on_the_wire()
    ensures
        TYPE_A == 1 && TYPE_NS == 2 && TYPE_CNAME == 5 && TYPE_SOA == 6 && TYPE_AAAA == 28,
        TYPE_DNAME == 39 && TYPE_OPT == 41 && TYPE_DS == 43 && TYPE_RRSIG == 46,
        TYPE_NSEC == 47 && TYPE_DNSKEY == 48 && TYPE_NSEC3 == 50 && TYPE_ANY == 255,
        CLASS_IN == 1,
        RCODE_NOERROR == 0 && RCODE_FORMERR == 1 && RCODE_SERVFAIL == 2 && RCODE_NXDOMAIN == 3,
        RCODE_NOTIMP == 4 && RCODE_REFUSED == 5 && RCODE_YXDOMAIN == 6,
        OPTION_EDE == 15 && EDE_DNSSEC_BOGUS == 6 && EDE_UNSUPPORTED_NSEC3_ITERATIONS == 27,
{
}

/// Each kind of data has the number of its own type, and no two kinds share one.
pub proof fn law_data_has_its_own_type(d: RDataView, name: Seq<Seq<u8>>, ttl: u32)
    ensures
        d is A ==> rtype_of(d) == 1,
        d is Ns ==> rtype_of(d) == 2,
        d is Cname ==> rtype_of(d) == 5,
        d is Soa ==> rtype_of(d) == 6,
        d is Aaaa ==> rtype_of(d) == 28,
        d is Dname ==> rtype_of(d) == 39,
        d is Opt ==> rtype_of(d) == 41,
        d is Ds ==> rtype_of(d) == 43,
        d is Rrsig ==> rtype_of(d) == 46,
        d is Dnskey ==> rtype_of(d) == 48,
        d matches RDataView::Unknown(t, _) ==> rtype_of(d) == t,
        ({
            let r = in_record(name, ttl, d);
            r.name == name && r.ttl == ttl && r.rdata == d && r.class == 1 && r.rtype == rtype_of(
                d,
            )
        }),
{
}

/// The extensions of a message are those of its first record that holds any, wherever in
/// the section it stands.
pub proof fn law_first_extensions_count(records: Seq<RecordView>, k: int)
    requires
        0 <= k < records.len(),
        forall|i: int| 0 <= i < k ==> !((#[trigger] records[i]).rdata is Opt),
    ensures
        records[k].rdata matches RDataView::Opt(e) ==> first_edns(records) == Some(e),
        k + 1 == records.len() && !(records[k].rdata is Opt) ==> first_edns(records) is None,
    decreases records.len(),
{
    if k > 0 {
        let rest = records.skip(1);
        assert(!(records[0].rdata is Opt));
        assert forall|i: int| 0 <= i < k - 1 implies !((#[trigger] rest[i]).rdata is Opt) by {
            assert(rest[i] == records[i + 1]);
        }
        assert(rest[k - 1] == records[k]);
        law_first_extensions_count(rest, k - 1);
    } else if records.len() == 1 {
        assert(records.skip(1).len() == 0);
        assert(first_edns(records.skip(1)) is None);
    }
}

/// An extended error is the first option of that number with at least two octets: they
/// are its code, high octet first, and what follows is its text.
pub proof fn law_first_extended_error_counts(options: Seq<EdnsOptionView>, k: int)
    requires
        0 <= k < options.len(),
        forall|i: int|
            0 <= i < k ==> (#[trigger] options[i]).code != 15 || options[i].data.len() < 2,
    ensures
        options[k].code == 15 && options[k].data.len() >= 2 ==> (first_ede(options) matches Some(e)
            && e.0 == options[k].data[0] * 256 + options[k].data[1] && e.1.len() + 2
            == options[k].data.len() && forall|j: int|
            0 <= j < e.1.len() ==> #[trigger] e.1[j] == options[k].data[j + 2]),
        k + 1 == options.len() && (options[k].code != 15 || options[k].data.len() < 2)
            ==> first_ede(options) is None,
    decreases options.len(),
{
    if k > 0 {
        let rest = options.skip(1);
        assert(options[0].code != 15 || options[0].data.len() < 2);
        assert forall|i: int| 0 <= i < k - 1 implies (#[trigger] rest[i]).code != 15
            || rest[i].data.len() < 2 by {
            assert(rest[i] == options[i + 1]);
        }
        assert(rest[k - 1] == options[k]);
        law_first_extended_error_counts(rest, k - 1);
    } else if options.len() == 1 {
        assert(options.skip(1).len() == 0);
        assert(first_ede(options.skip(1)) is None);
    }
}

/// The record of the extensions can be told apart by what it holds: the size in its
/// class, and in its lifetime the upper part of the code, the version, and the wish for
/// signatures in the bit below them.
pub proof fn law_extensions_are_spread_over_their_record(e: EdnsView)
    ensures
        ({
            let r = edns_record(e);
            &&& r.name.len() == 0
            &&& r.rtype == 41
            &&& r.class == e.udp_payload
            &&& r.ttl / 0x100_0000 == e.extended_rcode
            &&& r.ttl / 0x1_0000 % 0x100 == e.version
            &&& (r.ttl % 0x1_0000 == 0x8000) == e.dnssec_ok
            &&& (r.ttl % 0x1_0000 == 0) == !e.dnssec_ok
            &&& r.rdata == RDataView::Opt(e)
        }),
{
}

/// A blank message is neither query nor answer in any detail: every flag is off, every number
/// is 0, and no section holds anything.
pub proof fn law_a_blank_message_says_nothing()
    ensures
        ({
            let h = blank_header();
            &&& h.id == 0 && h.opcode == 0 && h.rcode == 0
            &&& !h.response && !h.authoritative && !h.truncated
            &&& !h.recursion_desired && !h.recursion_available
            &&& !h.authentic_data && !h.checking_disabled
        }),
        blank_message().header == blank_header(),
        blank_message().questions.len() == 0,
        blank_message().answers.len() == 0,
        blank_message().authorities.len() == 0,
        blank_message().additionals.len() == 0,
{
}

} // verus!
