use onetdns::addr::{IpAddr, Ipv4Addr, SocketAddr};
use onetdns::chain::{ChainLink, SecurityStatus, ZoneStep};
use onetdns::message::{
    Dnskey, Ds, Header, Message, RData, Record, Rrsig, Soa, EDE_DNSSEC_BOGUS, RCODE_NOERROR,
    RCODE_SERVFAIL, TYPE_A, TYPE_AAAA, TYPE_CNAME, TYPE_DNSKEY, TYPE_DS, TYPE_NSEC, TYPE_SOA,
};
use onetdns::name::Name;
use onetdns::net::IpNet;
use onetdns::proving::Proving;
use onetdns::query::{make_query, ValidationCounter};
use onetdns::recursor::{Budget, RecurseError, Recursor};
use onetdns::resolution::{Resolution, Stage, Work};
use onetdns::search::{Attempt, IterationStep};
use onetdns::seqs::Replicate;
use onetdns::validate::{
    AnswerCheck, ChainStatus, DenialCheck, DenialTarget,
    ProofAction, ProofReply,
};

const MILLI: u64 = 1_000_000;

const SECOND: u64 = 1_000_000_000;

const PORT: u16 = 5400;

const NOW_SECS: u32 = 1_800_000_000;

fn name(s: &str) -> Name {
    let labels: Vec<Vec<u8>> = s
        .split('.')
        .filter(|l| !l.is_empty())
        .map(|l| l.as_bytes().to_vec())
        .collect();
    Name::from_labels(labels).unwrap()
}

fn local(d: u8) -> IpAddr {
    IpAddr::V4(Ipv4Addr::new(127, 0, 0, d))
}

// ---- signatures that anyone can compute, in place of real ones ----

fn key(k: u8) -> Dnskey {
    Dnskey { flags: 257, protocol: 3, algorithm: 13, public_key: vec![k] }
}

fn delegation(k: u8) -> Ds {
    Ds { key_tag: u16::from(k), algorithm: 13, digest_type: 2, digest: vec![k] }
}

/// What stands for a signature: the records themselves, under a key.
fn mark(k: u8, rrset: &[Record]) -> Vec<u8> {
    let plain: Vec<Record> = rrset
        .iter()
        .map(|r| {
            let mut r = r.replicate();
            r.ttl = 0;
            r
        })
        .collect();
    format!("{k}{plain:?}").into_bytes()
}

fn rrsig_rec(k: u8, signer: &str, type_covered: u16, rrset: &[Record]) -> Record {
    Record::new(
        rrset[0].name.clone(),
        3600,
        RData::Rrsig(Rrsig {
            type_covered,
            algorithm: 13,
            labels: rrset[0].name.num_labels() as u8,
            original_ttl: 3600,
            expiration: NOW_SECS + 86_400,
            inception: NOW_SECS - 86_400,
            key_tag: u16::from(k),
            signer: name(signer),
            signature: mark(k, rrset),
        }),
    )
}

/// The records are signed by the zone with one of the keys.
fn verify(keys: &[Dnskey], apex: &Name, records: &[Record], signatures: &[Rrsig]) -> bool {
    signatures.iter().any(|s| {
        s.signer.eq_ignore_case(apex)
            && keys.iter().any(|k| s.signature == mark(k.public_key[0], records))
    })
}

fn keys_of(records: &[Record]) -> Vec<Dnskey> {
    records
        .iter()
        .filter_map(|r| match &r.rdata {
            RData::Dnskey(k) => Some(key(k.public_key[0])),
            _ => None,
        })
        .collect()
}

/// Follows the chain from the anchors down.
fn check_chain(anchors: &[Ds], links: &[ChainLink]) -> ChainStatus {
    let mut trusted: Vec<Vec<u8>> = anchors.iter().map(|d| d.digest.clone()).collect();
    for (i, link) in links.iter().enumerate() {
        let keys = keys_of(&link.dnskeys);
        let vouched: Vec<Dnskey> = keys
            .iter()
            .filter(|k| trusted.contains(&k.public_key))
            .map(|k| key(k.public_key[0]))
            .collect();
        if !verify(&vouched, &link.zone, &link.dnskeys, &link.dnskey_rrsigs) {
            return ChainStatus::Bogus;
        }
        if i + 1 == links.len() {
            return ChainStatus::Secure(keys);
        }
        if !verify(&keys, &link.zone, &link.below.ds_records, &link.below.ds_rrsigs) {
            return ChainStatus::Bogus;
        }
        trusted = link.below.ds.iter().map(|d| d.digest.clone()).collect();
    }
    ChainStatus::Bogus
}

/// The denial at the name itself, where its types leave the one asked for out.
fn nodata_proof(records: &[Record], qname: &Name, qtype: u16) -> Option<Vec<Record>> {
    records
        .iter()
        .find(|r| {
            r.name.eq_ignore_case(qname)
                && matches!(&r.rdata, RData::Unknown(_, d) if !d.contains(&(qtype as u8)))
        })
        .map(|r| vec![r.replicate()])
}

/// What a step of an examination asks for, or that it is over. Each set of records costs
/// one check.
fn perform(
    action: ProofAction,
    keys: &[Dnskey],
    apex: &Name,
) -> Result<ProofReply, SecurityStatus> {
    Ok(match action {
        ProofAction::Verify { records, signatures, allowed } => ProofReply::Verified {
            valid: verify(keys, apex, &records, &signatures),
            left: allowed - 1,
        },
        ProofAction::SelectNsec { records, qname, target: DenialTarget::Data(qtype) } => {
            ProofReply::Proof(nodata_proof(&records, &qname, qtype).map(|p| (p, false)))
        }
        ProofAction::SelectNsec { .. } => ProofReply::Proof(None),
        ProofAction::MeasureNsec3 { .. } => ProofReply::Iterations(0),
        ProofAction::SelectNsec3 { .. } => ProofReply::Proof(None),
        ProofAction::Verdict(status) => return Err(status),
    })
}

fn examine_denial(mut check: DenialCheck, keys: &[Dnskey]) -> SecurityStatus {
    loop {
        match perform(check.action(), keys, &check.apex) {
            Ok(reply) => check.reply(reply),
            Err(status) => return status,
        }
    }
}

fn examine_answer(mut check: AnswerCheck, keys: &[Dnskey]) -> SecurityStatus {
    loop {
        match perform(check.action(), keys, &check.apex) {
            Ok(reply) => check.reply(reply),
            Err(status) => return status,
        }
    }
}

fn check_response(
    rec: &Recursor,
    qname: &Name,
    qtype: u16,
    response: &Message,
    chain: &Vec<ZoneStep>,
    positive: bool,
    keys: &[Dnskey],
) -> SecurityStatus {
    if positive {
        match rec.begin_answer(qname, qtype, response, chain) {
            Err(status) => status,
            Ok(check) => examine_answer(check, keys),
        }
    } else {
        match rec.begin_denial(qname, qtype, response, chain) {
            Err(status) => status,
            Ok(check) => examine_denial(check, keys),
        }
    }
}

// ---- two zones ----

fn base(req: &Message) -> Message {
    let mut m = Message::query(req.header.id, name("x"), TYPE_A);
    m.questions = req.replicate().questions;
    m.header = Header { response: true, ..m.header };
    m
}

const ROOT_KEY: u8 = 11;

const TEST_KEY: u8 = 12;

fn signed(m: &mut Message, k: u8, signer: &str, covered: u16, r: Record) {
    let sig = rrsig_rec(k, signer, covered, &[r.replicate()]);
    m.answers.push(r);
    m.answers.push(sig);
}

fn root_zone(req: &Message) -> Message {
    let q = &req.questions[0];
    let mut m = base(req);
    if q.qtype == TYPE_DNSKEY && q.name.is_root() {
        m.header.authoritative = true;
        let dk = Record::new(Name::root(), 3600, RData::Dnskey(key(ROOT_KEY)));
        signed(&mut m, ROOT_KEY, ".", TYPE_DNSKEY, dk);
    } else {
        let ds = Record::new(name("test"), 3600, RData::Ds(delegation(TEST_KEY)));
        let ns = RData::Ns(name("ns.test"));
        m.authorities.push(Record::new(name("test"), 3600, ns));
        m.authorities.push(ds.replicate());
        m.authorities.push(rrsig_rec(ROOT_KEY, ".", TYPE_DS, &[ds]));
        let glue = RData::A(Ipv4Addr::new(127, 0, 0, 31));
        m.additionals.push(Record::new(name("ns.test"), 3600, glue));
    }
    m
}

fn test_zone(req: &Message) -> Message {
    let q = &req.questions[0];
    let mut m = base(req);
    m.header.authoritative = true;
    let host = q.name.eq_ignore_case(&name("host.test"));
    if q.qtype == TYPE_DNSKEY && q.name.eq_ignore_case(&name("test")) {
        let dk = Record::new(name("test"), 3600, RData::Dnskey(key(TEST_KEY)));
        signed(&mut m, TEST_KEY, "test", TYPE_DNSKEY, dk);
    } else if host && q.qtype == TYPE_A {
        let a = Record::new(name("host.test"), 3600, RData::A(Ipv4Addr::new(10, 0, 0, 9)));
        signed(&mut m, TEST_KEY, "test", TYPE_A, a);
    } else if q.name.eq_ignore_case(&name("alias.test")) {
        let cn = Record::new(name("alias.test"), 3600, RData::Cname(name("host.test")));
        signed(&mut m, TEST_KEY, "test", TYPE_CNAME, cn);
    } else if host {
        let soa = Record::new(
            name("test"),
            3600,
            RData::Soa(Soa {
                mname: name("ns.test"),
                rname: name("hostmaster.test"),
                serial: 1,
                refresh: 3600,
                retry: 600,
                expire: 86_400,
                minimum: 300,
            }),
        );
        let types = RData::Unknown(TYPE_NSEC, vec![1, 46, 47]);
        let nsec = Record::new(name("host.test"), 3600, types);
        let soa_sig = rrsig_rec(TEST_KEY, "test", TYPE_SOA, &[soa.replicate()]);
        let nsec_sig = rrsig_rec(TEST_KEY, "test", TYPE_NSEC, &[nsec.replicate()]);
        m.authorities.push(soa);
        m.authorities.push(soa_sig);
        m.authorities.push(nsec);
        m.authorities.push(nsec_sig);
    }
    m
}

// ---- everything at work ----

struct World {
    rec: Recursor,
    now: u64,
    asked: usize,
    counter: ValidationCounter,
}

impl World {
    fn new(anchor: u8) -> World {
        let rec = Recursor::new(vec![SocketAddr::new(local(30), PORT)], 2 * SECOND)
            .with_port(PORT)
            .with_server_acl(vec![], vec![IpNet { addr: local(0), prefix: 8 }])
            .with_trust_anchors(vec![delegation(anchor)]);
        World { rec, now: SECOND, asked: 0, counter: ValidationCounter::default() }
    }

    fn with(mut self, change: impl FnOnce(Recursor) -> Recursor) -> World {
        self.rec = change(self.rec);
        self
    }

    fn millis(&self) -> u64 {
        self.now / MILLI
    }

    fn query_any(
        &mut self,
        servers: &Vec<SocketAddr>,
        query: &Message,
        zone: &Name,
        deadline: u64,
    ) -> Result<Message, RecurseError> {
        let bits = vec![[0b0110_1001u8; 32]];
        let mut x = self.rec.begin_exchange(servers, query, zone, deadline, self.now, &bits)?;
        loop {
            match self.rec.next_attempt(&mut x, self.now) {
                Attempt::Over => return x.give_up(),
                Attempt::Send { server, .. } => {
                    let started = self.now;
                    self.now += MILLI;
                    self.asked += 1;
                    let reply = if server.ip == local(30) {
                        root_zone(&x.sent)
                    } else {
                        test_zone(&x.sent)
                    };
                    let now = self.now;
                    if let Some(m) = self.rec.on_reply(&mut x, server, Some(reply), started, now) {
                        return Ok(m);
                    }
                }
            }
        }
    }

    fn iterate_from(
        &mut self,
        qname: &Name,
        qtype: u16,
        budget: &mut Budget,
        zone: Name,
        servers: Vec<SocketAddr>,
        honor_cd: bool,
    ) -> Result<(Message, Vec<ZoneStep>), RecurseError> {
        let mut it = self.rec.begin_iteration(qname, qtype, zone, servers, honor_cd);
        loop {
            let plan = it.next(budget)?;
            let query = make_query(&plan.mname, plan.mtype, true);
            let servers = it.state.servers.clone();
            let zone = it.state.zone.clone();
            let resp = self.query_any(&servers, &query, &zone, budget.deadline)?;
            let millis = self.millis();
            match self.rec.iteration_response(&mut it, resp, &plan, millis) {
                IterationStep::Done(m) => return Ok((m, it.state.chain)),
                IterationStep::Failed(e) => return Err(e),
                IterationStep::NeedNsAddrs { .. } => panic!("every server has an address"),
                IterationStep::Ask => {}
            }
        }
    }

    fn iterate(
        &mut self,
        qname: &Name,
        qtype: u16,
        budget: &mut Budget,
        honor_cd: bool,
    ) -> Result<(Message, Vec<ZoneStep>), RecurseError> {
        let millis = self.millis();
        if let Some((zone, servers)) = self.rec.cached_start(qname, honor_cd, millis) {
            let saved = budget.ns_resolves;
            let start = zone.clone();
            let walk = self.iterate_from(qname, qtype, budget, start, servers, honor_cd);
            let leaf = match &walk {
                Ok((_, chain)) => Some(chain.last().map_or(zone, |s| s.zone.clone())),
                Err(_) => None,
            };
            let millis = self.millis();
            let leaf = leaf.as_ref();
            if self.rec.accept_cached_walk(qname, leaf, saved, budget, honor_cd, millis) {
                return walk;
            }
        }
        let roots = self.rec.roots.clone();
        self.iterate_from(qname, qtype, budget, Name::root(), roots, honor_cd)
    }

    fn validate(&mut self, s: &Resolution, qname: &Name, qtype: u16, positive: bool) -> SecurityStatus {
        let (response, chain) = match &s.stage {
            Stage::JudgingEnd { response, chain, .. } => (response, chain),
            Stage::JudgingAlias { response, chain, .. } => (response, chain),
            _ => panic!("there is nothing to validate"),
        };
        let millis = self.millis();
        let mut p = self.rec.begin_proving(qname, qtype, chain, positive, millis);
        loop {
            let millis = self.millis();
            p = match p {
                Proving::Over(status) => return status,
                Proving::Gathering { .. } => {
                    let g = self.rec.gather_keys(p, millis);
                    match self.rec.keys_wanted(&g) {
                        None => g,
                        Some((zone, servers)) => {
                            let query = make_query(&zone, TYPE_DNSKEY, true);
                            let deadline = s.budget.deadline;
                            let outcome = self.query_any(&servers, &query, &zone, deadline);
                            let millis = self.millis();
                            self.rec.keys_fetched(g, outcome, NOW_SECS, millis)
                        }
                    }
                }
                Proving::Measuring { leaf, links } => {
                    let rounds = vec![0; links.len()];
                    self.rec.rounds_measured(Proving::Measuring { leaf, links }, &rounds)
                }
                Proving::Checking { leaf, links } => {
                    let status = check_chain(&self.rec.trust_anchors, &links);
                    let p = Proving::Checking { leaf, links };
                    self.rec.chain_checked(p, status, NOW_SECS, millis)
                }
                Proving::Trusting(keys) => {
                    let status =
                        check_response(&self.rec, qname, qtype, response, chain, positive, &keys);
                    Proving::Trusting(keys).response_checked(status)
                }
            };
        }
    }

    fn resolve_cd(&mut self, qname: &str, qtype: u16, cd: bool) -> Message {
        let mut s = self.rec.resolve_with_ns_cd(&name(qname), qtype, cd, self.now);
        loop {
            match s.work() {
                Work::Walk(n) => {
                    let mut budget = s.budget;
                    let walk = self.iterate(&n, s.qtype, &mut budget, s.honor_cd);
                    s.budget = budget;
                    s = s.walked(&self.rec, walk, &mut self.counter);
                }
                Work::ValidateAnswer(n, t) => {
                    let status = self.validate(&s, &n, t, true);
                    s = s.validated(&self.rec, status, &mut self.counter);
                }
                Work::ValidateDenial(n, t) => {
                    let status = self.validate(&s, &n, t, false);
                    s = s.validated(&self.rec, status, &mut self.counter);
                }
                Work::Nothing => return s.outcome().unwrap().unwrap().0,
            }
        }
    }

    fn resolve(&mut self, qname: &str, qtype: u16) -> Message {
        self.resolve_cd(qname, qtype, false)
    }
}

fn has_signature(m: &Message, owner: &str, covered: u16) -> bool {
    m.answers.iter().any(|r| {
        r.name.eq_ignore_case(&name(owner))
            && matches!(&r.rdata, RData::Rrsig(s) if s.type_covered == covered)
    })
}

#[test]
fn dnssec_secure_chain_sets_ad_and_bogus_servfails() {
    let mut rec = World::new(ROOT_KEY);
    let resp = rec.resolve("host.test", TYPE_A);
    assert_eq!(resp.header.rcode, RCODE_NOERROR);
    assert!(resp.header.authentic_data);
    assert_eq!(resp.answers.iter().filter(|r| r.rtype == TYPE_A).count(), 1);

    let nodata = rec.resolve("host.test", TYPE_AAAA);
    assert_eq!(nodata.header.rcode, RCODE_NOERROR);
    assert!(nodata.answers.is_empty());
    assert!(nodata.header.authentic_data);

    let cname = rec.resolve("alias.test", TYPE_A);
    assert_eq!(cname.header.rcode, RCODE_NOERROR);
    assert!(cname.answers.iter().any(|r| matches!(r.rdata, RData::Cname(_))));
    let ip = Ipv4Addr::new(10, 0, 0, 9);
    assert!(cname.answers.iter().any(|r| matches!(&r.rdata, RData::A(a) if *a == ip)));
    assert!(cname.header.authentic_data);
    assert!(has_signature(&cname, "alias.test", TYPE_CNAME));
    assert!(has_signature(&cname, "host.test", TYPE_A));

    // The key of the other zone is no anchor for the root.
    let mut bad = World::new(TEST_KEY);
    let resp = bad.resolve("host.test", TYPE_A);
    assert_eq!(resp.header.rcode, RCODE_SERVFAIL);
    assert!(!resp.header.authentic_data);
    let (code, _) = resp.opt().unwrap().ede().unwrap();
    assert_eq!(code, EDE_DNSSEC_BOGUS);
    let nodata = bad.resolve("host.test", TYPE_AAAA);
    assert_eq!(nodata.header.rcode, RCODE_SERVFAIL);
    assert!(!nodata.header.authentic_data);

    let mut permissive = World::new(TEST_KEY).with(|r| r.with_dnssec_permissive(true));
    let resp = permissive.resolve("host.test", TYPE_A);
    assert_eq!(resp.header.rcode, RCODE_NOERROR);
    assert!(!resp.header.authentic_data);
    assert!(resp.answers.iter().any(|r| matches!(r.rdata, RData::A(_))));
    let nodata = permissive.resolve("host.test", TYPE_AAAA);
    assert_eq!(nodata.header.rcode, RCODE_NOERROR);
    assert!(!nodata.header.authentic_data);

    let mut honoring = World::new(TEST_KEY).with(|r| r.with_ignore_cd(false));
    let resp = honoring.resolve_cd("host.test", TYPE_A, true);
    assert_eq!(resp.header.rcode, RCODE_NOERROR);
    assert!(!resp.header.authentic_data);
    let resp = honoring.resolve_cd("host.test", TYPE_A, false);
    assert_eq!(resp.header.rcode, RCODE_SERVFAIL);

    let mut ignoring = World::new(TEST_KEY);
    let resp = ignoring.resolve_cd("host.test", TYPE_A, true);
    assert_eq!(resp.header.rcode, RCODE_SERVFAIL);
}

#[test]
fn what_was_validated_saves_the_way_from_the_root() {
    let mut rec = World::new(ROOT_KEY);
    assert!(rec.resolve("host.test", TYPE_A).header.authentic_data);
    // Two queries for the way down, and one for the keys of each zone.
    assert_eq!(rec.asked, 4);
    assert!(rec.resolve("host.test", TYPE_AAAA).header.authentic_data);
    assert_eq!(rec.asked, 5);
    // Under other anchors the way has to be walked again, and it leads nowhere.
    rec.rec.set_trust_anchors(vec![delegation(TEST_KEY)]);
    assert_eq!(rec.resolve("host.test", TYPE_A).header.rcode, RCODE_SERVFAIL);
}
