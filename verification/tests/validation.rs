use onetdns::addr::{IpAddr, Ipv4Addr, SocketAddr};
use onetdns::cache::ZoneTrust;
use onetdns::chain::{build_chain_links, DsEvidence, SecurityStatus, ZoneKeys, ZoneStep};
use onetdns::message::{
    Dnskey, Ds, Message, RData, Record, Rrsig, Soa, EDE_DNSSEC_BOGUS,
    EDE_UNSUPPORTED_NSEC3_ITERATIONS, RCODE_NXDOMAIN, TYPE_A, TYPE_AAAA, TYPE_DNSKEY, TYPE_NSEC,
    TYPE_NSEC3, TYPE_RRSIG, TYPE_SOA,
};
use onetdns::name::Name;
use onetdns::proving::Proving;
use onetdns::recursor::{RecurseError, Recursor};
use onetdns::response::{is_authoritative_negative, sanitize_terminal_response};
use onetdns::seqs::Replicate;
use onetdns::validate::{
    answer_material, begin_wildcard, signature_accepted, AnswerCheck, ChainFinding, ChainStart,
    ChainStatus, DenialCheck, DenialTarget, ProofAction, ProofReply, TerminalCheck,
    SIGNATURE_CHECKS,
};

const SECOND: u64 = 1_000_000_000;

const NOW: u64 = 1_000_000;

const NOW_SECS: u32 = 1_800_000_000;

fn name(s: &str) -> Name {
    let labels: Vec<Vec<u8>> = s
        .split('.')
        .filter(|l| !l.is_empty())
        .map(|l| l.as_bytes().to_vec())
        .collect();
    Name::from_labels(labels).unwrap()
}

fn step(zone: &str) -> ZoneStep {
    ZoneStep {
        zone: name(zone),
        servers: vec![SocketAddr::new(IpAddr::V4(Ipv4Addr::new(192, 0, 2, 1)), 53)],
        ns_names: vec![],
        evidence: DsEvidence::none(),
    }
}

fn soa(zone: &str, serial: u32) -> Record {
    Record::new(
        name(zone),
        3600,
        RData::Soa(Soa {
            mname: name("ns.test"),
            rname: name("hostmaster.test"),
            serial,
            refresh: 3600,
            retry: 600,
            expire: 86_400,
            minimum: 300,
        }),
    )
}

fn nsec_rec(owner: &str, next: &str, types: &[u16]) -> Record {
    let mut rdata = Vec::new();
    for label in next.split('.') {
        rdata.push(label.len() as u8);
        rdata.extend_from_slice(label.as_bytes());
    }
    rdata.push(0);
    let max = types.iter().copied().max().unwrap_or(0);
    let nbytes = (max / 8 + 1) as usize;
    let mut bm = vec![0u8; nbytes];
    for &t in types {
        bm[(t / 8) as usize] |= 0x80 >> (t % 8);
    }
    rdata.push(0);
    rdata.push(nbytes as u8);
    rdata.extend_from_slice(&bm);
    Record::new(name(owner), 3600, RData::Unknown(TYPE_NSEC, rdata))
}

/// What stands for a signature here: the records themselves, under a key.
fn mark(key: u8, rrset: &[Record]) -> Vec<u8> {
    format!("{key}{rrset:?}").into_bytes()
}

fn rrsig_rec(key: u8, signer: &str, type_covered: u16, rrset: &[Record]) -> Record {
    Record::new(
        rrset[0].name.clone(),
        3600,
        RData::Rrsig(Rrsig {
            type_covered,
            algorithm: 13,
            labels: rrset[0].name.num_labels() as u8,
            original_ttl: 3600,
            expiration: 0x7fff_ffff,
            inception: 0,
            key_tag: u16::from(key),
            signer: name(signer),
            signature: mark(key, rrset),
        }),
    )
}

/// Whether one of the signatures is that of the zone over the records with the key, and
/// how many checks are left. Each signature of the zone that is looked at costs one.
fn verify(
    key: u8,
    apex: &Name,
    records: &[Record],
    signatures: &[Rrsig],
    allowed: u32,
) -> ProofReply {
    let mut left = allowed;
    for s in signatures {
        if !s.signer.eq_ignore_case(apex) {
            continue;
        }
        if left == 0 {
            break;
        }
        left -= 1;
        if s.signature == mark(key, records) {
            return ProofReply::Verified { valid: true, left };
        }
    }
    ProofReply::Verified { valid: false, left }
}

/// The record at the name itself, where its types leave the one asked for out.
fn nodata_proof(records: &[Record], qname: &Name, qtype: u16) -> Option<Vec<Record>> {
    records
        .iter()
        .find(|r| {
            r.name.eq_ignore_case(qname)
                && match &r.rdata {
                    RData::Unknown(_, d) => {
                        let mut at = 0;
                        while d[at] != 0 {
                            at += 1 + d[at] as usize;
                        }
                        let bitmap = &d[at + 3..];
                        let byte = (qtype / 8) as usize;
                        byte >= bitmap.len() || bitmap[byte] & (0x80 >> (qtype % 8)) == 0
                    }
                    _ => false,
                }
        })
        .map(|r| vec![r.replicate()])
}

/// What a step of an examination asks for, or that it is over. `proof` chooses among
/// plain denials, hashed ones take `rounds` rounds and prove nothing.
fn perform(
    action: ProofAction,
    key: u8,
    apex: &Name,
    rounds: u16,
    proof: &impl Fn(&[Record]) -> Option<Vec<Record>>,
) -> Result<ProofReply, SecurityStatus> {
    Ok(match action {
        ProofAction::Verify { records, signatures, allowed } => {
            verify(key, apex, &records, &signatures, allowed)
        }
        ProofAction::SelectNsec { records, .. } => {
            ProofReply::Proof(proof(&records).map(|p| (p, false)))
        }
        ProofAction::MeasureNsec3 { records } => {
            ProofReply::Iterations(if records.is_empty() { 0 } else { rounds })
        }
        ProofAction::SelectNsec3 { .. } => ProofReply::Proof(None),
        ProofAction::Verdict(status) => return Err(status),
    })
}

/// Runs the examination of a denial to its end.
fn examine(
    mut check: DenialCheck,
    key: u8,
    rounds: u16,
    proof: impl Fn(&[Record]) -> Option<Vec<Record>>,
) -> SecurityStatus {
    loop {
        match perform(check.action(), key, &check.apex, rounds, &proof) {
            Ok(reply) => check.reply(reply),
            Err(status) => return status,
        }
    }
}

/// Runs the examination of an answer to its end.
fn examine_answer(
    mut check: AnswerCheck,
    key: u8,
    proof: impl Fn(&[Record]) -> Option<Vec<Record>>,
) -> SecurityStatus {
    loop {
        match perform(check.action(), key, &check.apex, 0, &proof) {
            Ok(reply) => check.reply(reply),
            Err(status) => return status,
        }
    }
}

fn answer_status(
    rec: &Recursor,
    qname: &Name,
    answer: &Message,
    key: u8,
    proof: impl Fn(&[Record]) -> Option<Vec<Record>>,
) -> SecurityStatus {
    match rec.begin_answer(qname, TYPE_A, answer, &vec![step("test")]) {
        Err(status) => status,
        Ok(check) => {
            assert_eq!(check.left, SIGNATURE_CHECKS);
            examine_answer(check, key, proof)
        }
    }
}

fn denial_status(rec: &Recursor, out: &Message, zone: &str, key: u8) -> SecurityStatus {
    match rec.begin_denial(&name("host.test"), TYPE_AAAA, out, &vec![step(zone)]) {
        Err(status) => status,
        Ok(check) => {
            assert_eq!(check.target, DenialTarget::Data(TYPE_AAAA));
            examine(check, key, 0, |records| nodata_proof(records, &name("host.test"), TYPE_AAAA))
        }
    }
}

#[test]
fn terminal_denial_uses_chain_apex_not_descendant_soa() {
    let apex = name("test");
    let qname = name("host.test");
    let mut response = Message::default();
    response.header.authoritative = true;
    response.header.rcode = RCODE_NXDOMAIN;
    response.authorities.push(soa("host.test", 1));

    assert!(!is_authoritative_negative(&response, &qname, &apex));

    let child = name("sub.test");
    let child_qname = name("host.sub.test");
    let mut lame = Message::default();
    lame.header.authoritative = true;
    lame.header.rcode = RCODE_NXDOMAIN;
    lame.authorities.push(soa("test", 1));
    assert!(!is_authoritative_negative(&lame, &child_qname, &child));

    response.authorities.push(soa("test", 1));
    response.authorities.push(nsec_rec("host.test", "z.test", &[1, 46, 47]));
    sanitize_terminal_response(&mut response, &qname, TYPE_AAAA, false, Some(&apex));

    let retained_soa: Vec<&Record> =
        response.authorities.iter().filter(|record| record.rtype == TYPE_SOA).collect();
    assert_eq!(retained_soa.len(), 1);
    assert!(retained_soa[0].name.eq_ignore_case(&apex));
    assert!(response.authorities.iter().any(|record| record.rtype == TYPE_NSEC));
}

#[test]
fn terminal_denial_requires_leaf_apex_signatures() {
    let rec = Recursor::new(vec![], SECOND);
    let soa_record = soa("test", 1);
    let soa_sig = rrsig_rec(63, "test", TYPE_SOA, &[soa_record.replicate()]);
    let nsec = nsec_rec("host.test", "z.test", &[1, 46, 47]);
    let status = |signer: &str, soa_record: &Record, include_soa_sig: bool| {
        let mut response = Message::default();
        response.authorities.push(soa_record.replicate());
        if include_soa_sig {
            response.authorities.push(soa_sig.replicate());
        }
        response.authorities.push(nsec.replicate());
        response.authorities.push(rrsig_rec(63, signer, TYPE_NSEC, &[nsec.replicate()]));
        denial_status(&rec, &response, "test", 63)
    };

    let bogus = SecurityStatus::Bogus(EDE_DNSSEC_BOGUS);
    assert_eq!(status("test", &soa_record, true), SecurityStatus::Secure);
    assert_eq!(status(".", &soa_record, true), bogus);
    assert_eq!(status("test", &soa_record, false), bogus);
    assert_eq!(status("test", &soa("test", 2), true), bogus);
}

#[test]
fn denial_validation_ignores_superfluous_signed_nsec_records() {
    let rec = Recursor::new(vec![], SECOND);
    let soa_record = soa("test", 1);
    let mut response = Message::default();
    response.authorities.push(soa_record.replicate());
    response.authorities.push(rrsig_rec(64, "test", TYPE_SOA, &[soa_record]));

    let types = [TYPE_A, TYPE_RRSIG, TYPE_NSEC];
    for i in 0..32 {
        let record = nsec_rec(&format!("a{i:02}.test"), &format!("a{i:02}z.test"), &types);
        response.authorities.push(record.replicate());
        response.authorities.push(rrsig_rec(64, "test", TYPE_NSEC, &[record]));
    }
    let needed = nsec_rec("host.test", "z.test", &types);
    response.authorities.push(needed.replicate());
    response.authorities.push(rrsig_rec(64, "test", TYPE_NSEC, &[needed]));

    assert_eq!(denial_status(&rec, &response, "test", 64), SecurityStatus::Secure);
}

#[test]
fn wildcard_expansion_requires_authenticated_denial_proof() {
    let apex = name("example.test");
    let qname = name("host.wild.example.test");
    let closer = nsec_rec("wild.example.test", "z.example.test", &[TYPE_NSEC]);
    // The span from the wildcard's name on leaves the name itself out.
    let proof = |records: &[Record]| {
        records
            .iter()
            .find(|r| r.name.eq_ignore_case(&name("wild.example.test")))
            .map(|r| vec![r.replicate()])
    };
    let mut response = Message::default();
    response.authorities.push(closer.replicate());
    response.authorities.push(rrsig_rec(44, "example.test", TYPE_NSEC, &[closer.replicate()]));
    let check = begin_wildcard(1, &qname, 3, &response.authorities, &apex, SIGNATURE_CHECKS);
    assert_eq!(examine(check, 44, 0, proof), SecurityStatus::Secure);

    response.authorities.truncate(1);
    response.authorities.push(rrsig_rec(44, ".", TYPE_NSEC, &[closer]));
    let check = begin_wildcard(1, &qname, 3, &response.authorities, &apex, SIGNATURE_CHECKS);
    assert_ne!(examine(check, 44, 0, proof), SecurityStatus::Secure);

    response.authorities.clear();
    let check = begin_wildcard(1, &qname, 3, &response.authorities, &apex, SIGNATURE_CHECKS);
    assert_ne!(examine(check, 44, 0, proof), SecurityStatus::Secure);

    let direct = Rrsig {
        type_covered: TYPE_A,
        algorithm: 13,
        labels: 4,
        original_ttl: 300,
        expiration: 0,
        inception: 0,
        key_tag: 1,
        signer: apex,
        signature: vec![],
    };
    let longer = name("a.host.wild.example.test");
    let bogus = SecurityStatus::Bogus(EDE_DNSSEC_BOGUS);
    assert!(signature_accepted(&direct, &qname, None));
    assert!(!signature_accepted(&direct, &longer, None));
    assert!(!signature_accepted(&direct, &longer, Some(bogus)));
    assert!(!signature_accepted(&direct, &longer, Some(SecurityStatus::Insecure)));
    assert!(signature_accepted(&direct, &longer, Some(SecurityStatus::Secure)));
}

#[test]
fn denials_that_cost_too_much_are_reported_as_such() {
    let rec = Recursor::new(vec![], SECOND).with_nsec3_max_iterations(10);
    for (rcode, rounds, code) in [
        (RCODE_NXDOMAIN, 11, EDE_UNSUPPORTED_NSEC3_ITERATIONS),
        (0, 11, EDE_UNSUPPORTED_NSEC3_ITERATIONS),
        (0, 10, EDE_DNSSEC_BOGUS),
    ] {
        let soa_record = soa("test", 1);
        let mut response = Message::default();
        response.header.rcode = rcode;
        response.authorities.push(soa_record.replicate());
        response.authorities.push(rrsig_rec(1, "test", TYPE_SOA, &[soa_record]));
        response.authorities.push(Record::new(
            name("hash.test"),
            300,
            RData::Unknown(TYPE_NSEC3, vec![1]),
        ));
        let host = name("host.test");
        let check = match rec.begin_denial(&host, TYPE_AAAA, &response, &vec![step("test")]) {
            Ok(c) => c,
            Err(_) => panic!("there is one start of authority"),
        };
        if rcode == RCODE_NXDOMAIN {
            assert_eq!(check.target, DenialTarget::Name);
        }
        assert_eq!(examine(check, 1, rounds, |_| None), SecurityStatus::Bogus(code));
    }
}

#[test]
fn a_denial_needs_one_start_of_authority() {
    let rec = Recursor::new(vec![], SECOND);
    let mut response = Message::default();
    let bogus = SecurityStatus::Bogus(EDE_DNSSEC_BOGUS);
    assert_eq!(denial_status(&rec, &response, "test", 1), bogus);
    response.authorities.push(soa("test", 1));
    response.authorities.push(soa("test", 2));
    assert_eq!(denial_status(&rec, &response, "test", 1), bogus);
    let host = name("host.test");
    assert!(matches!(rec.begin_denial(&host, TYPE_A, &response, &vec![]), Err(s) if s == bogus));
}

#[test]
fn answers_are_validated_by_their_own_records() {
    let qname = name("host.test");
    let a = Record::new(qname.clone(), 60, RData::A(Ipv4Addr::new(192, 0, 2, 65)));
    let mut answer = Message::default();
    let chain = vec![step("."), step("test")];
    assert!(answer_material(&qname, TYPE_A, &answer, &chain).is_err());
    answer.answers.push(a.replicate());
    assert!(answer_material(&qname, TYPE_A, &answer, &chain).is_err());
    answer.answers.push(rrsig_rec(5, "test", TYPE_A, &[a.replicate()]));
    assert!(answer_material(&qname, TYPE_A, &answer, &vec![]).is_err());
    let m = match answer_material(&qname, TYPE_A, &answer, &chain) {
        Ok(m) => m,
        Err(_) => panic!("everything is there"),
    };
    assert!(m.apex.eq_ignore_case(&name("test")));
    let rec = Recursor::new(vec![], SECOND);
    let bogus = SecurityStatus::Bogus(EDE_DNSSEC_BOGUS);
    assert_eq!(answer_status(&rec, &qname, &answer, 5, |_| None), SecurityStatus::Secure);
    assert_eq!(answer_status(&rec, &qname, &answer, 6, |_| None), bogus);
    answer.answers.truncate(1);
    assert_eq!(answer_status(&rec, &qname, &answer, 5, |_| None), bogus);
}

#[test]
fn answer_rrsigs_share_one_verification_budget() {
    let qname = name("host.test");
    let answer = Record::new(qname.clone(), 3600, RData::A(Ipv4Addr::new(192, 0, 2, 65)));
    let other = Record::new(qname.clone(), 3600, RData::A(Ipv4Addr::new(192, 0, 2, 66)));
    let invalid_for_answer = rrsig_rec(65, "test", TYPE_A, &[other]);
    let valid = rrsig_rec(65, "test", TYPE_A, &[answer.replicate()]);
    let rec = Recursor::new(vec![], SECOND);
    let verdict = |invalid_count: usize| {
        let mut response = Message::default();
        response.answers.push(answer.replicate());
        for _ in 0..invalid_count {
            response.answers.push(invalid_for_answer.replicate());
        }
        response.answers.push(valid.replicate());
        answer_status(&rec, &qname, &response, 65, |_| None)
    };

    assert_eq!(verdict(7), SecurityStatus::Secure, "the eighth signature is still checked");
    assert_eq!(
        verdict(8),
        SecurityStatus::Bogus(EDE_DNSSEC_BOGUS),
        "a ninth signature is not checked any more"
    );
}

#[test]
fn denial_rrsets_share_one_response_verification_budget() {
    let soa_record = soa("test", 1);
    let invalid_soa_sig = rrsig_rec(66, "test", TYPE_SOA, &[soa("test", 2)]);
    let valid_soa_sig = rrsig_rec(66, "test", TYPE_SOA, &[soa_record.replicate()]);
    let nsec = nsec_rec("host.test", "z.test", &[TYPE_A, TYPE_RRSIG, TYPE_NSEC]);
    let nsec_sig = rrsig_rec(66, "test", TYPE_NSEC, &[nsec.replicate()]);
    let rec = Recursor::new(vec![], SECOND);
    let verdict = |invalid_count: usize| {
        let mut response = Message::default();
        response.authorities.push(soa_record.replicate());
        for _ in 0..invalid_count {
            response.authorities.push(invalid_soa_sig.replicate());
        }
        response.authorities.push(valid_soa_sig.replicate());
        response.authorities.push(nsec.replicate());
        response.authorities.push(nsec_sig.replicate());
        denial_status(&rec, &response, "test", 66)
    };

    assert_eq!(
        verdict(6),
        SecurityStatus::Secure,
        "seven checks of the start of authority and one of the denial are allowed"
    );
    assert_eq!(
        verdict(7),
        SecurityStatus::Bogus(EDE_DNSSEC_BOGUS),
        "the denial has no checks of its own"
    );
}

#[test]
fn a_wildcard_and_its_proof_share_the_checks_of_the_answer() {
    let qname = name("host.wild.test");
    let a = Record::new(qname.clone(), 60, RData::A(Ipv4Addr::new(192, 0, 2, 65)));
    let mut expanded = rrsig_rec(7, "test", TYPE_A, &[a.replicate()]);
    if let RData::Rrsig(s) = &mut expanded.rdata {
        s.labels = 2;
    }
    let other = Record::new(qname.clone(), 60, RData::A(Ipv4Addr::new(192, 0, 2, 66)));
    let invalid = rrsig_rec(7, "test", TYPE_A, &[other]);
    let closer = nsec_rec("wild.test", "z.test", &[TYPE_NSEC]);
    let proof = |records: &[Record]| records.first().map(|r| vec![r.replicate()]);
    let rec = Recursor::new(vec![], SECOND);
    let response = |invalid_count: usize, signed: bool| {
        let mut m = Message::default();
        m.answers.push(a.replicate());
        for _ in 0..invalid_count {
            m.answers.push(invalid.replicate());
        }
        m.answers.push(expanded.replicate());
        m.authorities.push(closer.replicate());
        if signed {
            m.authorities.push(rrsig_rec(7, "test", TYPE_NSEC, &[closer.replicate()]));
        }
        m
    };
    let bogus = SecurityStatus::Bogus(EDE_DNSSEC_BOGUS);
    assert_eq!(answer_status(&rec, &qname, &response(0, true), 7, proof), SecurityStatus::Secure);
    assert_eq!(answer_status(&rec, &qname, &response(0, false), 7, proof), bogus);
    assert_eq!(answer_status(&rec, &qname, &response(0, true), 7, |_| None), bogus);
    assert_eq!(answer_status(&rec, &qname, &response(6, true), 7, proof), SecurityStatus::Secure);
    assert_eq!(answer_status(&rec, &qname, &response(7, true), 7, proof), bogus);

    let m = response(0, true);
    let mut check = match rec.begin_answer(&qname, TYPE_A, &m, &vec![step("test")]) {
        Ok(c) => c,
        Err(_) => panic!("everything is there"),
    };
    // What comes back is never more than what was allowed.
    check.reply(ProofReply::Verified { valid: true, left: 100 });
    assert_eq!(check.left, SIGNATURE_CHECKS - 1);
    assert!(matches!(check.action(), ProofAction::MeasureNsec3 { .. }));
    check.reply(ProofReply::Iterations(0));
    assert!(matches!(
        check.action(),
        ProofAction::SelectNsec { qname: asked, target: DenialTarget::Closer(2), .. }
            if asked.eq_ignore_case(&qname)
    ));
}

fn zone_keys(zone: &str) -> ZoneKeys {
    let key = Dnskey { flags: 257, protocol: 3, algorithm: 13, public_key: vec![1] };
    ZoneKeys {
        records: vec![Record::new(name(zone), 600, RData::Dnskey(key))],
        signatures: vec![Rrsig {
            type_covered: TYPE_DNSKEY,
            algorithm: 13,
            labels: 0,
            original_ttl: 600,
            expiration: NOW_SECS + 500,
            inception: NOW_SECS - 60,
            key_tag: 1,
            signer: name(zone),
            signature: vec![1],
        }],
    }
}

#[test]
fn unsigned_delegation_is_insecure_not_servfail() {
    let mut rec = Recursor::new(vec![], SECOND).with_dnssec();
    let mut chain = vec![step("."), step("unsigned")];
    chain[1].evidence.nsec_records.push(nsec_rec("unsigned", "z", &[2]));
    assert!(matches!(rec.chain_start(&chain, NOW), ChainStart::NeedKeys));
    let links = build_chain_links(&chain, &vec![zone_keys("."), zone_keys("unsigned")]);
    assert_eq!(links[0].below.nsec_records.len(), 1);
    assert!(links[1].below.nsec_records.is_empty());
    let status = rec.conclude_chain(
        &name("unsigned"),
        &links,
        ChainFinding::Checked(ChainStatus::Insecure),
        NOW_SECS,
        NOW,
    );
    assert!(matches!(status, Err(SecurityStatus::Insecure)));
    // The verdict is remembered, so that a later walk can start in the zone.
    assert!(matches!(
        rec.chain_start(&chain, NOW + 1),
        ChainStart::Known(SecurityStatus::Insecure)
    ));
    assert!(rec.validated_start_ok(&name("unsigned"), false, NOW + 1));
    assert!(!rec.validated_start_ok(&name("unsigned"), false, NOW + 600_000));
}

#[test]
fn chains_are_concluded_by_what_was_found() {
    let mut rec = Recursor::new(vec![], SECOND).with_dnssec();
    let chain = vec![step("."), step("test")];
    let links = build_chain_links(&chain, &vec![zone_keys("."), zone_keys("test")]);
    let leaf = name("test");
    let bogus = SecurityStatus::Bogus(EDE_DNSSEC_BOGUS);
    let costly = SecurityStatus::Bogus(EDE_UNSUPPORTED_NSEC3_ITERATIONS);
    let r = rec.conclude_chain(&leaf, &links, ChainFinding::Unavailable, NOW_SECS, NOW);
    assert!(matches!(r, Err(s) if s == bogus));
    let r = rec.conclude_chain(&leaf, &links, ChainFinding::Costly, NOW_SECS, NOW);
    assert!(matches!(r, Err(s) if s == costly));
    let broken = ChainFinding::Checked(ChainStatus::Bogus);
    let r = rec.conclude_chain(&leaf, &links, broken, NOW_SECS, NOW);
    assert!(matches!(r, Err(s) if s == bogus));
    assert!(matches!(rec.chain_start(&chain, NOW), ChainStart::NeedKeys));

    let key = Dnskey { flags: 257, protocol: 3, algorithm: 13, public_key: vec![9] };
    let good = ChainFinding::Checked(ChainStatus::Secure(vec![key]));
    let r = rec.conclude_chain(&leaf, &links, good, NOW_SECS, NOW);
    assert!(matches!(r, Ok(keys) if keys.len() == 1));
    assert!(matches!(rec.chain_start(&chain, NOW), ChainStart::Trusted(_)));
    // A chain from somewhere in the middle proves nothing of its own.
    let middle = vec![step("other")];
    assert!(matches!(rec.chain_start(&middle, NOW), ChainStart::Known(s) if s == bogus));
    assert!(rec.chain_has_excessive_nsec3(&vec![0, 151]));
    assert!(!rec.chain_has_excessive_nsec3(&vec![0, 1]));
}

#[test]
fn validation_without_fetching_waits_for_missing_keys() {
    let mut rec = Recursor::new(vec![], SECOND)
        .with_dnssec()
        .with_domain_insecure(vec![name("exempt")]);
    let qname = name("host.test");
    let chain = vec![step("."), step("test")];
    assert!(matches!(
        rec.terminal_check(&name("a.exempt"), TYPE_A, &chain, true, NOW),
        TerminalCheck::Known(SecurityStatus::Insecure)
    ));
    assert!(matches!(
        rec.terminal_check(&name("a.exempt"), TYPE_A, &chain, false, NOW),
        TerminalCheck::Known(SecurityStatus::Insecure)
    ));
    assert!(matches!(
        rec.terminal_check(&qname, TYPE_RRSIG, &chain, true, NOW),
        TerminalCheck::Known(SecurityStatus::Insecure)
    ));
    assert!(matches!(
        rec.terminal_check(&qname, TYPE_A, &vec![], true, NOW),
        TerminalCheck::Deferred
    ));
    assert!(matches!(
        rec.terminal_check(&qname, TYPE_A, &chain, true, NOW),
        TerminalCheck::Deferred
    ));
    let (zone, servers) =
        rec.first_chain_zone_missing_dnskey(&chain, &vec![], NOW).unwrap();
    assert!(zone.is_root());
    assert_eq!(servers.len(), 1);
    rec.dnskey_store(Name::root(), zone_keys("."), 600, NOW);
    let (zone, _) = rec.first_chain_zone_missing_dnskey(&chain, &vec![], NOW).unwrap();
    assert!(zone.eq_ignore_case(&name("test")));
    assert!(rec.first_chain_zone_missing_dnskey(&chain, &vec![name("test")], NOW).is_none());
    rec.dnskey_store(name("test"), zone_keys("test"), 600, NOW);
    assert!(matches!(
        rec.terminal_check(&qname, TYPE_A, &chain, true, NOW),
        TerminalCheck::CheckChain
    ));
    let generation = rec.anchor_generation;
    rec.validated_keys_store(name("test"), ZoneTrust::Secure(vec![]), generation, 60, NOW);
    assert!(matches!(
        rec.terminal_check(&qname, TYPE_A, &chain, true, NOW),
        TerminalCheck::Trusted(_)
    ));
    let mut rotated = rec.with_trust_anchors(vec![Ds {
        key_tag: 1,
        algorithm: 8,
        digest_type: 2,
        digest: vec![0; 32],
    }]);
    assert!(matches!(
        rotated.terminal_check(&qname, TYPE_A, &chain, true, NOW),
        TerminalCheck::CheckChain
    ));
}

fn key_answer(zone: &str) -> Message {
    let keys = zone_keys(zone);
    let mut m = Message::default();
    for r in keys.records {
        m.answers.push(r);
    }
    for s in keys.signatures {
        m.answers.push(Record::new(name(zone), 600, RData::Rrsig(s)));
    }
    m
}

#[test]
fn validation_gathers_keys_from_the_root_down() {
    let mut rec = Recursor::new(vec![], SECOND).with_dnssec();
    let qname = name("host.test");
    let chain = vec![step("."), step("test")];
    rec.dnskey_store(Name::root(), zone_keys("."), 600, NOW);

    let p = rec.begin_proving(&qname, TYPE_A, &chain, true, NOW);
    let p = rec.gather_keys(p, NOW);
    // The root's keys were at hand, the zone's own are wanted of its servers.
    let (zone, servers) = rec.keys_wanted(&p).unwrap();
    assert!(zone.eq_ignore_case(&name("test")));
    assert_eq!(servers.len(), 1);
    let p = rec.keys_fetched(p, Ok(key_answer("test")), NOW_SECS, NOW);
    assert!(rec.keys_wanted(&p).is_none());
    assert!(rec.dnskey_cached(&name("test"), NOW).is_some());
    match &p {
        Proving::Measuring { leaf, links } => {
            assert!(leaf.eq_ignore_case(&name("test")));
            assert_eq!(links.len(), 2);
        }
        _ => panic!("the links are built"),
    }

    let p = rec.rounds_measured(p, &vec![0, 0]);
    assert!(matches!(p, Proving::Checking { .. }));
    let key = Dnskey { flags: 257, protocol: 3, algorithm: 13, public_key: vec![9] };
    let p = rec.chain_checked(p, ChainStatus::Secure(vec![key]), NOW_SECS, NOW);
    assert!(matches!(&p, Proving::Trusting(keys) if keys.len() == 1));
    let p = p.response_checked(SecurityStatus::Secure);
    assert!(matches!(p, Proving::Over(SecurityStatus::Secure)));

    // What the chain came to is remembered: the next response needs no keys.
    let p = rec.begin_proving(&qname, TYPE_A, &chain, false, NOW + 1);
    assert!(matches!(&p, Proving::Trusting(keys) if keys[0].public_key == vec![9]));
}

#[test]
fn validation_ends_where_something_is_missing() {
    let mut rec = Recursor::new(vec![], SECOND)
        .with_dnssec()
        .with_nsec3_max_iterations(10)
        .with_domain_insecure(vec![name("exempt")]);
    let qname = name("host.test");
    let chain = vec![step("test")];
    let from_root = vec![step(".")];
    let bogus = SecurityStatus::Bogus(EDE_DNSSEC_BOGUS);

    let p = rec.begin_proving(&name("a.exempt"), TYPE_A, &chain, true, NOW);
    assert!(matches!(p, Proving::Over(SecurityStatus::Insecure)));
    // Neither the middle of a chain nor an empty one proves anything.
    let p = rec.begin_proving(&qname, TYPE_A, &chain, true, NOW);
    assert!(matches!(p, Proving::Over(s) if s == bogus));
    let p = rec.begin_proving(&qname, TYPE_A, &vec![], false, NOW);
    assert!(matches!(p, Proving::Over(s) if s == bogus));

    let p = rec.begin_proving(&qname, TYPE_A, &from_root, true, NOW);
    let p = rec.gather_keys(p, NOW);
    let p = rec.keys_fetched(p, Err(RecurseError::NoResponse), NOW_SECS, NOW);
    assert!(matches!(p, Proving::Over(s) if s == bogus));

    let costly = SecurityStatus::Bogus(EDE_UNSUPPORTED_NSEC3_ITERATIONS);
    for (rounds, verdict, end) in [
        (11, ChainStatus::Insecure, costly),
        (10, ChainStatus::Bogus, bogus),
        (10, ChainStatus::Insecure, SecurityStatus::Insecure),
    ] {
        let p = rec.begin_proving(&qname, TYPE_A, &from_root, true, NOW);
        let p = rec.gather_keys(p, NOW);
        let p = match rec.keys_wanted(&p) {
            Some(_) => rec.keys_fetched(p, Ok(key_answer(".")), NOW_SECS, NOW),
            None => p,
        };
        let p = rec.rounds_measured(p, &vec![rounds]);
        let p = rec.chain_checked(p, verdict, NOW_SECS, NOW);
        assert!(matches!(p, Proving::Over(s) if s == end));
    }
}
