use onetdns::addr::{IpAddr, Ipv4Addr, Ipv6Addr, SocketAddr};
use onetdns::chain::SecurityStatus;
use onetdns::message::{
    Message, Question, RData, Record, Soa, CLASS_IN, EDE_DNSSEC_BOGUS,
    EDE_UNSUPPORTED_NSEC3_ITERATIONS, RCODE_NOERROR, RCODE_NXDOMAIN,
    RCODE_SERVFAIL, RCODE_YXDOMAIN, TYPE_A, TYPE_ANY, TYPE_CNAME, TYPE_RRSIG,
};
use onetdns::name::Name;
use onetdns::net::{is_globally_routable, IpNet};
use onetdns::query::{
    bogus_servfail, ede_text_for, lowercase_name, make_query, randomize_name_case,
    validation_bogus_total, ValidationCounter,
};
use onetdns::recursor::{RecurseError, Recursor};
use onetdns::response::{
    cname_target, dname_rewrite, extract_referral, has_direct_qtype_answer, is_dname_yxdomain,
    is_relevant_positive, is_within, questions_case_exact, questions_match,
    response_usable_for_iteration,
    sanitize_terminal_response, strip_out_of_bailiwick_dnames,
};
use onetdns::search::Attempt;
use onetdns::seqs::Replicate;

const MILLI: u64 = 1_000_000;

const SECOND: u64 = 1_000_000_000;

fn name(s: &str) -> Name {
    let labels: Vec<Vec<u8>> = s
        .split('.')
        .filter(|l| !l.is_empty())
        .map(|l| l.as_bytes().to_vec())
        .collect();
    Name::from_labels(labels).unwrap()
}

fn is(n: &Name, s: &str) -> bool {
    n.eq_ignore_case(&name(s))
}

fn v4(a: u8, b: u8, c: u8, d: u8) -> IpAddr {
    IpAddr::V4(Ipv4Addr::new(a, b, c, d))
}

fn v6(segments: [u16; 8]) -> IpAddr {
    IpAddr::V6(Ipv6Addr::from_segments(segments))
}

fn a(s: &str, ttl: u32, d: u8) -> Record {
    Record::new(name(s), ttl, RData::A(Ipv4Addr::new(192, 0, 2, d)))
}

fn cname(s: &str, target: &str) -> Record {
    Record::new(name(s), 300, RData::Cname(name(target)))
}

fn dname(s: &str, ttl: u32, target: &str) -> Record {
    Record::new(name(s), ttl, RData::Dname(name(target)))
}

#[test]
fn non_in_records_cannot_drive_answers_referrals_or_glue() {
    let qname = name("host.test");
    let mut response = Message::query(1, qname.clone(), TYPE_A);
    response.header.response = true;
    response.header.authoritative = true;

    let mut answer = a("host.test", 300, 1);
    answer.class = 3;
    response.answers.push(answer);
    assert!(!has_direct_qtype_answer(&response, &qname, TYPE_A));

    response.answers.clear();
    response.header.authoritative = false;
    let zone = name("test");
    let ns = name("ns.test");
    let mut referral = Record::new(zone.clone(), 300, RData::Ns(ns.clone()));
    referral.class = 3;
    response.authorities.push(referral);
    let mut glue = a("ns.test", 300, 53);
    glue.class = 3;
    response.additionals.push(glue);
    assert!(extract_referral(&response, &qname).0.is_none());

    let rec = Recursor::new(vec![], SECOND);
    assert!(rec.glue_addrs(&response, &vec![ns], &zone).0.is_empty());
}

#[test]
fn any_query_accepts_normal_rrset_response() {
    let qname = name("host.test");
    let zone = name("test");
    let mut resp = Message::query(1, qname.clone(), TYPE_ANY);
    resp.header.response = true;
    resp.header.authoritative = true;
    resp.answers.push(a("host.test", 300, 1));
    let six = Ipv6Addr::from_segments([0x2001, 0xdb8, 0, 0, 0, 0, 0, 1]);
    resp.answers.push(Record::new(qname.clone(), 300, RData::Aaaa(six)));

    assert!(has_direct_qtype_answer(&resp, &qname, TYPE_ANY));
    assert!(is_relevant_positive(&resp, &qname, TYPE_ANY));
    let req = Message::query(1, qname.clone(), TYPE_ANY);
    assert!(response_usable_for_iteration(&resp, &req, &zone));

    let mut out = resp.replicate();
    sanitize_terminal_response(&mut out, &qname, TYPE_ANY, true, None);
    assert_eq!(out.answers.len(), 2);
}

#[test]
fn dname_yxdomain_is_terminal_and_usable() {
    let owner = name("sub.test");
    let qname = name("x.sub.test");
    let zone = name("test");
    let mut resp = Message::query(1, qname.clone(), TYPE_A);
    resp.header.response = true;
    resp.header.authoritative = true;
    resp.header.rcode = RCODE_YXDOMAIN;
    resp.answers.push(dname("sub.test", 300, "target.example"));

    assert!(is_dname_yxdomain(&resp, &qname));
    let req = Message::query(1, qname.clone(), TYPE_A);
    assert!(response_usable_for_iteration(&resp, &req, &zone));

    assert!(!is_dname_yxdomain(&resp, &owner));
}

#[test]
fn dname_covering_qname_wins_over_synthetic_cname() {
    let qname = name("a.sub.test");
    let mut resp = Message::query(1, qname.clone(), TYPE_CNAME);
    resp.header.response = true;
    resp.header.authoritative = true;
    resp.answers.push(dname("sub.test", 300, "dst.example"));
    resp.answers.push(cname("a.sub.test", "a.dst.example"));

    assert!(has_direct_qtype_answer(&resp, &qname, TYPE_CNAME));
    assert!(dname_rewrite(&resp, &qname).is_some());
}

#[test]
fn rrsig_query_is_insecure_not_bogus() {
    let rec = Recursor::new(vec![], SECOND);
    let qname = name("host.test");
    assert_eq!(
        rec.answer_status_without_keys(&qname, TYPE_RRSIG),
        Some(SecurityStatus::Insecure)
    );
    assert_eq!(rec.answer_status_without_keys(&qname, TYPE_A), None);
}

#[test]
fn nat64_local_use_prefix_is_not_globally_routable() {
    assert!(!is_globally_routable(v6([0x64, 0xff9b, 1, 0, 0, 0, 0x808, 0x808])));

    assert!(is_globally_routable(v6([0x64, 0xff9b, 0, 0, 0, 0, 0x808, 0x808])));
    assert!(!is_globally_routable(v6([0x64, 0xff9b, 0, 0, 0, 0, 0xa9fe, 0xa9fe])));
}

#[test]
fn dname_rewrite_uses_longest_matching_owner() {
    let qname = name("www.deep.old.example");
    let mut response = Message::default();
    response.answers.push(dname("old.example", 300, "broad.example.net"));
    response.answers.push(dname("deep.old.example", 120, "specific.example.net"));

    let (source, target, synthetic) = dname_rewrite(&response, &qname).unwrap();
    assert!(is(&source.name, "deep.old.example"));
    assert!(is(&target, "www.specific.example.net"));
    assert_eq!(synthetic.ttl, 120);
    match &synthetic.rdata {
        RData::Cname(n) => assert!(is(n, "www.specific.example.net")),
        _ => panic!("an alias was expected"),
    }
}

#[test]
fn out_of_bailiwick_dname_is_stripped() {
    let zone = name("sub.example.com");
    let mut resp = Message::default();
    resp.answers.push(dname("sub.example.com", 300, "ok.example.net"));
    resp.answers.push(dname("example.com", 300, "evil.example.net"));
    resp.answers.push(Record::new(
        name("host.sub.example.com"),
        300,
        RData::A(Ipv4Addr::new(1, 2, 3, 4)),
    ));

    strip_out_of_bailiwick_dnames(&mut resp, &zone);

    assert_eq!(resp.answers.len(), 2);
    assert!(resp
        .answers
        .iter()
        .all(|r| !matches!(&r.rdata, RData::Dname(_)) || is_within(&r.name, &zone)));
    assert!(resp.answers.iter().any(|r| matches!(&r.rdata, RData::A(_))));
}

#[test]
fn conflicting_alias_data_is_not_accepted_as_an_answer() {
    let qname = name("www.example");
    let zone = name("example");
    let query = Message::query(1, qname.clone(), TYPE_A);
    let mut response = query.replicate();
    response.header.response = true;
    response.header.authoritative = true;
    response.answers.push(cname("www.example", "target.example"));
    response.answers.push(a("www.example", 300, 1));

    assert!(cname_target(&response, &qname).is_none());
    assert!(!is_relevant_positive(&response, &qname, TYPE_A));
    assert!(!response_usable_for_iteration(&response, &query, &zone));

    response.answers.clear();
    response.answers.push(dname("example", 300, "one.example.net"));
    response.answers.push(dname("example", 300, "two.example.net"));
    assert!(dname_rewrite(&response, &qname).is_none());

    // Two aliases at one name that differ are no alias at all.
    response.answers.clear();
    response.answers.push(cname("www.example", "one.example"));
    response.answers.push(cname("www.example", "two.example"));
    assert!(cname_target(&response, &qname).is_none());
}

#[test]
fn root_key_sentinel_rfc8509() {
    let r = Recursor::with_default_roots(50 * MILLI).with_dnssec();
    let mk = |qname: &str| {
        let mut m = Message::query(1, name(qname), TYPE_A);
        m.header.authentic_data = true;
        m.answers.push(Record::new(name(qname), 60, RData::A(Ipv4Addr::new(1, 2, 3, 4))));
        m
    };
    let apply = |q: &str| {
        let mut m = mk(q);
        r.apply_sentinel(&name(q), TYPE_A, &mut m);
        m
    };

    let m = apply("root-key-sentinel-is-ta-20326.example.com");
    assert_eq!(m.header.rcode, RCODE_NOERROR);
    assert!(!m.answers.is_empty());

    assert_eq!(
        apply("root-key-sentinel-is-ta-00001.example.com").header.rcode,
        RCODE_SERVFAIL
    );

    assert_eq!(
        apply("root-key-sentinel-not-ta-20326.example.com").header.rcode,
        RCODE_SERVFAIL
    );

    assert_eq!(
        apply("root-key-sentinel-not-ta-00001.example.com").header.rcode,
        RCODE_NOERROR
    );

    assert_eq!(
        apply("kskroll-sentinel-is-ta-00001.example.com").header.rcode,
        RCODE_NOERROR
    );
    assert_eq!(apply("root-key-sentinel-is-ta-1.example.com").header.rcode, RCODE_NOERROR);

    let mut m = mk("root-key-sentinel-is-ta-00001.example.com");
    m.header.authentic_data = false;
    r.apply_sentinel(&name("root-key-sentinel-is-ta-00001.example.com"), TYPE_A, &mut m);
    assert_eq!(m.header.rcode, RCODE_NOERROR);
}

#[test]
fn domain_insecure_suffix_match() {
    let r = Recursor::new(vec![], 50 * MILLI).with_domain_insecure(vec![name("internal.example")]);
    assert!(r.is_domain_insecure(&name("host.internal.example")));
    assert!(r.is_domain_insecure(&name("internal.example")));
    assert!(!r.is_domain_insecure(&name("host.example")));
}

#[test]
fn ssrf_default_denies_internal_servers() {
    let r = Recursor::with_default_roots(SECOND);
    assert!(!r.is_queryable(v4(169, 254, 169, 254)));
    assert!(!r.is_queryable(v4(127, 0, 0, 1)));
    assert!(!r.is_queryable(v4(10, 0, 0, 5)));
    assert!(!r.is_queryable(v4(192, 168, 1, 1)));
    assert!(!r.is_queryable(v6([0, 0, 0, 0, 0, 0, 0, 1])));
    assert!(!r.is_queryable(v6([0xfd00, 0, 0, 0, 0, 0, 0, 1])));

    assert!(!r.is_queryable(v6([0, 0, 0, 0, 0, 0xffff, 0x7f00, 1])));
    assert!(!r.is_queryable(v6([0x64, 0xff9b, 0, 0, 0, 0, 0x7f00, 1])));
    assert!(!r.is_queryable(v6([0x64, 0xff9b, 0, 0, 0, 0, 0xa00, 1])));
    assert!(!r.is_queryable(v6([0x64, 0xff9b, 1, 0, 0, 0, 0xa9fe, 0xa9fe])));
    assert!(!r.is_queryable(v6([0x2002, 0x7f00, 1, 0, 0, 0, 0, 0])));
    assert!(!r.is_queryable(v6([0x2002, 0xa00, 1, 0, 0, 0, 0, 0])));
    assert!(!r.is_queryable(v6([0, 0, 0, 0, 0, 0, 0x7f00, 1])));
    assert!(!r.is_queryable(v6([0xfec0, 0, 0, 0, 0, 0, 0, 1])));

    assert!(r.is_queryable(v6([0x64, 0xff9b, 0, 0, 0, 0, 0x808, 0x808])));
    assert!(r.is_queryable(v6([0x2002, 0x808, 0x808, 0, 0, 0, 0, 0])));

    let alternate_port = Recursor::with_default_roots(SECOND).with_port(5353);
    assert!(!alternate_port.is_queryable(v4(127, 0, 0, 1)));

    assert!(r.is_queryable(v4(8, 8, 8, 8)));
    assert!(r.is_queryable(v6([0x2001, 0x4860, 0x4860, 0, 0, 0, 0, 0x8888])));

    let r2 = r.with_server_acl(vec![], vec![IpNet { addr: v4(10, 0, 0, 0), prefix: 8 }]);
    assert!(r2.is_queryable(v4(10, 0, 0, 5)));

    let r3 = Recursor::with_default_roots(SECOND)
        .with_server_acl(vec![IpNet { addr: v4(8, 8, 8, 0), prefix: 24 }], vec![]);
    assert!(!r3.is_queryable(v4(8, 8, 8, 8)));
}

#[test]
fn caps_for_id_randomizes_but_preserves_name() {
    let n = name("www.Example.com");

    let mut differs = false;
    for i in 0..50u8 {
        let mut bits = [0u8; 32];
        for (k, b) in bits.iter_mut().enumerate() {
            *b = i.wrapping_mul(37).wrapping_add((k as u8).wrapping_mul(101));
        }
        let r = randomize_name_case(&n, &bits);
        assert!(r.eq_ignore_case(&n));
        assert!(lowercase_name(&r).eq_exact(&name("www.example.com")));
        differs = differs || !r.eq_exact(&n);
    }
    assert!(differs);
}

#[test]
fn lowercase_outgoing_normalizes_name() {
    let n = lowercase_name(&name("WwW.Example.COM"));
    assert!(n.eq_exact(&name("www.example.com")));
    assert_eq!(n.labels(), vec![b"www".to_vec(), b"example".to_vec(), b"com".to_vec()]);

    let mut query = make_query(&name("WwW.Example.COM"), TYPE_A, true);
    Recursor::with_default_roots(SECOND)
        .with_caps_for_id(false)
        .with_lowercase_outgoing(true)
        .apply_outgoing_case(&mut query, &vec![[0xff; 32]]);
    assert_eq!(
        query.questions[0].name.labels(),
        vec![b"www".to_vec(), b"example".to_vec(), b"com".to_vec()]
    );
}

#[test]
fn caps_for_id_exact_match_rejects_case_mismatch() {
    let q = |s: &str| vec![Question { name: name(s), qtype: TYPE_A, qclass: CLASS_IN }];
    assert!(questions_case_exact(&q("WwW.eXample.com"), &q("WwW.eXample.com")));

    assert!(!questions_case_exact(&q("www.example.com"), &q("WWW.example.com")));
}

#[test]
fn caps_for_id_rejects_wire_question_case_mismatch_end_to_end() {
    let server = SocketAddr::new(v4(127, 0, 0, 1), 53);
    let mut recursor = Recursor::new(vec![], 500 * MILLI)
        .with_caps_for_id(true)
        .with_server_acl(vec![], vec![IpNet { addr: v4(127, 0, 0, 0), prefix: 8 }]);
    let request = Message::query(7, name("manyletters.example"), TYPE_A);
    let mut exchange = match recursor.begin_exchange(
        &vec![server],
        &request,
        &Name::root(),
        recursor.query_deadline(0),
        0,
        &vec![[0b1010_0110; 32]],
    ) {
        Ok(x) => x,
        Err(_) => panic!("the server may be asked"),
    };
    assert!(matches!(recursor.next_attempt(&mut exchange, 0), Attempt::Send { .. }));

    let mut response = exchange.sent.replicate();
    response.header.response = true;
    let original = response.questions[0].name.clone();
    let mut labels = original.labels();
    labels[0][0] ^= 0x20;
    response.questions[0].name = Name::from_labels(labels).unwrap();
    response.answers.push(Record::new(original, 60, RData::A(Ipv4Addr::new(192, 0, 2, 80))));

    assert!(recursor.on_reply(&mut exchange, server, Some(response), 0, MILLI).is_none());
    assert_eq!(recursor.next_attempt(&mut exchange, MILLI), Attempt::Over);
    assert!(matches!(exchange.give_up(), Err(RecurseError::NoResponse)));
}

#[test]
fn unrelated_records_are_not_usable() {
    let qname = name("www.example");
    let zone = name("example");
    let query = Message::query(1, qname.clone(), TYPE_A);
    let mut response = query.replicate();
    response.header.response = true;
    response.header.authoritative = true;
    response.answers.push(a("unrelated.example", 300, 1));
    assert!(!has_direct_qtype_answer(&response, &qname, TYPE_A));
    assert!(!is_relevant_positive(&response, &qname, TYPE_A));
    assert!(!response_usable_for_iteration(&response, &query, &zone));
}

fn soa(zone: &str) -> Record {
    Record::new(
        name(zone),
        300,
        RData::Soa(Soa {
            mname: name("ns.example"),
            rname: name("hostmaster.example"),
            serial: 1,
            refresh: 2,
            retry: 3,
            expire: 4,
            minimum: 5,
        }),
    )
}

#[test]
fn cleaning_drops_what_is_beside_the_point() {
    let qname = name("www.example");
    let mut response = Message::query(1, qname.clone(), TYPE_A);
    response.header.response = true;
    response.answers.push(a("www.example", 300, 1));
    response.answers.push(a("other.example", 300, 2));
    response.authorities.push(Record::new(name("example"), 300, RData::Ns(name("ns.evil"))));
    response.additionals.push(a("ns.evil", 300, 3));
    let mut out = response.replicate();
    sanitize_terminal_response(&mut out, &qname, TYPE_A, true, None);
    assert_eq!(out.answers.len(), 1);
    assert!(is(&out.answers[0].name, "www.example"));
    assert!(out.authorities.is_empty());
    assert!(out.additionals.is_empty());

    let zone = name("example");
    let mut denial = Message::query(1, qname.clone(), TYPE_A);
    denial.header.rcode = RCODE_NXDOMAIN;
    denial.answers.push(a("www.example", 300, 1));
    denial.authorities.push(soa("example"));
    denial.authorities.push(soa("evil"));
    sanitize_terminal_response(&mut denial, &qname, TYPE_A, false, Some(&zone));
    assert!(denial.answers.is_empty());
    assert_eq!(denial.authorities.len(), 1);
    assert!(is(&denial.authorities[0].name, "example"));
    let once = denial.replicate();
    sanitize_terminal_response(&mut denial, &qname, TYPE_A, false, Some(&zone));
    assert_eq!(denial, once);
}

#[test]
fn excessive_nsec3_iterations_report_their_own_ede() {
    let mut counter = ValidationCounter::default();
    let template = || make_query(&name("bogus.example"), TYPE_A, false);
    let plain = bogus_servfail(&template(), EDE_DNSSEC_BOGUS, &mut counter);
    let excessive =
        bogus_servfail(&template(), EDE_UNSUPPORTED_NSEC3_ITERATIONS, &mut counter);

    let ede_of = |msg: &Message| msg.opt().unwrap().ede().unwrap();
    assert_eq!(ede_of(&plain).0, EDE_DNSSEC_BOGUS);
    assert_eq!(ede_of(&excessive).0, EDE_UNSUPPORTED_NSEC3_ITERATIONS);
    assert_ne!(ede_of(&plain).1, ede_of(&excessive).1);
    assert_eq!(excessive.header.rcode, RCODE_SERVFAIL);
    assert_eq!(ede_text_for(EDE_DNSSEC_BOGUS), b"DNSSEC validation failed");
    assert_eq!(
        ede_text_for(EDE_UNSUPPORTED_NSEC3_ITERATIONS),
        b"NSEC3 iterations above local limit"
    );
}

#[test]
fn bogus_servfail_increments_observability_counter() {
    let mut counter = ValidationCounter::default();
    let before = validation_bogus_total(&counter);
    let template = make_query(&name("bogus.example"), TYPE_A, false);
    for _ in 0..32 {
        bogus_servfail(&template, EDE_DNSSEC_BOGUS, &mut counter);
    }
    let sf = bogus_servfail(&template, EDE_DNSSEC_BOGUS, &mut counter);
    assert_eq!(sf.header.rcode, RCODE_SERVFAIL);
    assert_eq!(validation_bogus_total(&counter), before + 33);
}

#[test]
fn responses_to_other_queries_are_of_no_use() {
    let qname = name("www.example");
    let zone = name("example");
    let query = Message::query(7, qname.clone(), TYPE_A);
    let mut response = query.replicate();
    response.header.response = true;
    response.header.authoritative = true;
    response.answers.push(Record::new(qname, 300, RData::A(Ipv4Addr::new(192, 0, 2, 1))));
    assert!(response_usable_for_iteration(&response, &query, &zone));

    let mut other_number = response.replicate();
    other_number.header.id = 8;
    assert!(!response_usable_for_iteration(&other_number, &query, &zone));

    let mut other_case = response.replicate();
    other_case.questions[0].name = name("WWW.example");
    assert!(questions_match(&other_case.questions, &query.questions));
    assert!(!questions_case_exact(&other_case.questions, &query.questions));
    assert!(response_usable_for_iteration(&other_case, &query, &zone));

    let mut other_name = response.replicate();
    other_name.questions[0].name = name("ftp.example");
    assert!(!response_usable_for_iteration(&other_name, &query, &zone));

    let mut other_type = response.replicate();
    other_type.questions[0].qtype = TYPE_A + 1;
    assert!(!response_usable_for_iteration(&other_type, &query, &zone));

    let mut other_class = response.replicate();
    other_class.questions[0].qclass = 3;
    assert!(!response_usable_for_iteration(&other_class, &query, &zone));

    let mut no_question = response.replicate();
    no_question.questions.clear();
    assert!(!response_usable_for_iteration(&no_question, &query, &zone));
    assert!(!response_usable_for_iteration(&no_question, &no_question, &zone));
}
