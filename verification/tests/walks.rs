use onetdns::addr::{IpAddr, Ipv4Addr, SocketAddr};
use onetdns::chain::{NsContext, SecurityStatus, ZoneStep};
use onetdns::message::{
    Header, Message, RData, Record, Rrsig, Soa, RCODE_NOERROR, RCODE_NXDOMAIN, RCODE_SERVFAIL,
    TYPE_A, TYPE_AAAA, TYPE_CNAME, TYPE_RRSIG,
};
use onetdns::name::Name;
use onetdns::net::IpNet;
use onetdns::nsaddr::NsAddrSearch;
use onetdns::query::{make_query, validation_bogus_total, ValidationCounter};
use onetdns::recursor::{Budget, RecurseError, Recursor, MAX_TOTAL_QUERIES};
use onetdns::resolution::{Resolution, Stage, Work};
use onetdns::search::{Attempt, IterationStep};
use onetdns::seqs::Replicate;

const MILLI: u64 = 1_000_000;

const SECOND: u64 = 1_000_000_000;

const PORT: u16 = 5300;

fn name(s: &str) -> Name {
    let labels: Vec<Vec<u8>> = s
        .split('.')
        .filter(|l| !l.is_empty())
        .map(|l| l.as_bytes().to_vec())
        .collect();
    Name::from_labels(labels).unwrap()
}

fn is(n: &Name, s: &str) -> bool {
    n.eq_ignore_case(&name(s))
}

fn local(d: u8) -> Ipv4Addr {
    Ipv4Addr::new(127, 0, 0, d)
}

fn at(ip: Ipv4Addr) -> SocketAddr {
    SocketAddr::new(IpAddr::V4(ip), PORT)
}

/// Servers that answer at once, and a clock that only waiting moves.
struct Net {
    servers: Vec<(Ipv4Addr, Box<dyn Fn(&Message) -> Message>)>,
    asked: Vec<(IpAddr, Name)>,
    now: u64,
    verdicts: Vec<SecurityStatus>,
    counter: ValidationCounter,
}

impl Net {
    fn new() -> Net {
        Net {
            servers: Vec::new(),
            asked: Vec::new(),
            now: SECOND,
            verdicts: Vec::new(),
            counter: ValidationCounter::default(),
        }
    }

    fn serve(mut self, ip: Ipv4Addr, respond: impl Fn(&Message) -> Message + 'static) -> Net {
        self.servers.push((ip, Box::new(respond)));
        self
    }

    fn hits(&self, ip: Ipv4Addr) -> usize {
        self.asked.iter().filter(|(a, _)| *a == IpAddr::V4(ip)).count()
    }

    fn millis(&self) -> u64 {
        self.now / MILLI
    }

    fn ask(&mut self, server: SocketAddr, query: &Message, timeout: u64) -> Option<Message> {
        self.asked.push((server.ip, query.questions[0].name.clone()));
        for (ip, respond) in &self.servers {
            if IpAddr::V4(*ip) == server.ip {
                self.now += MILLI;
                return Some(respond(query));
            }
        }
        self.now += timeout;
        None
    }
}

fn query_any(
    rec: &mut Recursor,
    net: &mut Net,
    servers: &Vec<SocketAddr>,
    query: &Message,
    zone: &Name,
    deadline: u64,
) -> Result<Message, RecurseError> {
    let bits = vec![[0b0110_1001u8; 32]];
    let mut exchange = rec.begin_exchange(servers, query, zone, deadline, net.now, &bits)?;
    loop {
        match rec.next_attempt(&mut exchange, net.now) {
            Attempt::Over => return exchange.give_up(),
            Attempt::Send { server, timeout } => {
                let started = net.now;
                let reply = net.ask(server, &exchange.sent, timeout);
                let now = net.now;
                if let Some(m) = rec.on_reply(&mut exchange, server, reply, started, now) {
                    return Ok(m);
                }
            }
        }
    }
}

fn resolve_ns_addrs(
    rec: &mut Recursor,
    net: &mut Net,
    missing: Vec<Name>,
    budget: &mut Budget,
) -> (Vec<SocketAddr>, Option<u32>) {
    let mut search = NsAddrSearch { names: missing, at: 0, addrs: vec![], ttl: None };
    while let Some(ns) = rec.ns_search_next(&mut search, budget, net.millis()) {
        let mut found = [None, None];
        for (i, qtype) in [TYPE_A, TYPE_AAAA].into_iter().enumerate() {
            if (i == 0 && rec.do_ip4) || (i == 1 && rec.do_ip6) {
                let nested =
                    Resolution::start_nested(rec, ns.clone(), qtype, false, *budget);
                let (outcome, left) = work(rec, net, nested);
                *budget = left;
                found[i] = outcome.ok().map(|(m, _)| m);
            }
        }
        rec.ns_search_absorb(&mut search, found[0].as_ref(), found[1].as_ref(), net.millis());
    }
    rec.ns_search_finish(search)
}

fn iterate_from(
    rec: &mut Recursor,
    net: &mut Net,
    qname: &Name,
    qtype: u16,
    budget: &mut Budget,
    zone: Name,
    servers: Vec<SocketAddr>,
    honor_cd: bool,
) -> Result<(Message, Vec<ZoneStep>), RecurseError> {
    let mut it = rec.begin_iteration(qname, qtype, zone, servers, honor_cd);
    loop {
        let plan = it.next(budget)?;
        let query = make_query(&plan.mname, plan.mtype, true);
        let resp = query_any(
            rec,
            net,
            &it.state.servers,
            &query,
            &it.state.zone,
            budget.deadline,
        )?;
        let mut step = rec.iteration_response(&mut it, resp, &plan, net.millis());
        if let IterationStep::NeedNsAddrs { missing, pending } = step {
            let (extra, ttl) = resolve_ns_addrs(rec, net, missing, budget);
            step = rec.iteration_addresses(&mut it, pending, extra, ttl, net.millis());
        }
        match step {
            IterationStep::Done(m) => return Ok((m, it.state.chain)),
            IterationStep::Failed(e) => return Err(e),
            _ => {}
        }
    }
}

fn iterate(
    rec: &mut Recursor,
    net: &mut Net,
    qname: &Name,
    qtype: u16,
    budget: &mut Budget,
    honor_cd: bool,
) -> Result<(Message, Vec<ZoneStep>), RecurseError> {
    if let Some((zone, servers)) = rec.cached_start(qname, honor_cd, net.millis()) {
        let saved = budget.ns_resolves;
        let walk =
            iterate_from(rec, net, qname, qtype, budget, zone.clone(), servers, honor_cd);
        let leaf = match &walk {
            Ok((_, chain)) => Some(chain.last().map_or(zone, |s| s.zone.clone())),
            Err(_) => None,
        };
        let millis = net.millis();
        if rec.accept_cached_walk(qname, leaf.as_ref(), saved, budget, honor_cd, millis) {
            return walk;
        }
    }
    let roots = rec.roots.clone();
    iterate_from(rec, net, qname, qtype, budget, Name::root(), roots, honor_cd)
}

/// Works on a question until it is over.
fn work(
    rec: &mut Recursor,
    net: &mut Net,
    question: Resolution,
) -> (Result<(Message, NsContext), RecurseError>, Budget) {
    let mut s = question;
    loop {
        match s.work() {
            Work::Walk(n) => {
                let mut budget = s.budget;
                let walk = iterate(rec, net, &n, s.qtype, &mut budget, s.honor_cd);
                s.budget = budget;
                s = s.walked(rec, walk, &mut net.counter);
            }
            Work::ValidateAnswer(_, _) | Work::ValidateDenial(_, _) => {
                let status = net.verdicts.remove(0);
                s = s.validated(rec, status, &mut net.counter);
            }
            Work::Nothing => {
                let budget = s.budget;
                return (s.outcome().unwrap(), budget);
            }
        }
    }
}

fn resolve_with_ns(
    rec: &mut Recursor,
    net: &mut Net,
    qname: &str,
) -> Result<(Message, NsContext), RecurseError> {
    let question = rec.resolve_with_ns(&name(qname), TYPE_A, net.now);
    work(rec, net, question).0
}

fn resolve(rec: &mut Recursor, net: &mut Net, qname: &str) -> Result<Message, RecurseError> {
    resolve_with_ns(rec, net, qname).map(|(m, _)| m)
}

fn recursor(roots: &[u8], timeout: u64) -> Recursor {
    Recursor::new(roots.iter().map(|d| at(local(*d))).collect(), timeout)
        .with_port(PORT)
        .with_ip_family(true, false, None)
        .with_server_acl(
            vec![],
            vec![IpNet { addr: IpAddr::V4(local(0)), prefix: 8 }],
        )
}

fn base(req: &Message) -> Message {
    let mut m = Message::query(req.header.id, name("x"), TYPE_A);
    m.questions = req.replicate().questions;
    m.header = Header {
        response: true,
        recursion_desired: req.header.recursion_desired,
        ..m.header
    };
    m
}

fn asked(req: &Message) -> Name {
    req.questions[0].name.clone()
}

fn ns_record(zone: &str, ns: &str) -> Record {
    Record::new(name(zone), 172800, RData::Ns(name(ns)))
}

fn a_record(n: &Name, ip: Ipv4Addr) -> Record {
    Record::new(n.clone(), 300, RData::A(ip))
}

fn referral(req: &Message, zone: &str, ns: &str, glue: Ipv4Addr) -> Message {
    let mut m = base(req);
    m.authorities.push(ns_record(zone, ns));
    m.additionals.push(Record::new(name(ns), 172800, RData::A(glue)));
    m
}

fn a_answer(req: &Message, ip: Ipv4Addr) -> Message {
    let mut m = base(req);
    m.header.authoritative = true;
    m.answers.push(a_record(&asked(req), ip));
    m
}

fn has_a(m: &Message, ip: Ipv4Addr) -> bool {
    m.answers.iter().any(|r| matches!(&r.rdata, RData::A(a) if *a == ip))
}

/// Root, then com, then example.com.
fn three_levels() -> Net {
    Net::new()
        .serve(local(3), |req| a_answer(req, Ipv4Addr::new(93, 184, 216, 34)))
        .serve(local(2), |req| referral(req, "example.com", "ns.example.com", local(3)))
        .serve(local(1), |req| referral(req, "com", "ns.com", local(2)))
}

#[test]
fn iterative_walk_root_tld_auth() {
    let mut net = three_levels();
    let mut rec = recursor(&[1], 2 * SECOND);
    let resp = resolve(&mut rec, &mut net, "www.example.com").unwrap();
    assert_eq!(resp.answers.len(), 1);
    assert!(has_a(&resp, Ipv4Addr::new(93, 184, 216, 34)));
    assert!(!resp.header.authoritative);
    assert!(resp.header.recursion_available);
}

#[test]
fn non_validating_recursor_strips_upstream_ad_bit() {
    let mut net = Net::new()
        .serve(local(3), |req| {
            let mut m = a_answer(req, Ipv4Addr::new(6, 6, 6, 6));
            m.header.authentic_data = true;
            m
        })
        .serve(local(2), |req| referral(req, "example.com", "ns.example.com", local(3)))
        .serve(local(1), |req| referral(req, "com", "ns.com", local(2)));
    let mut rec = recursor(&[1], 2 * SECOND);
    let resp = resolve(&mut rec, &mut net, "www.example.com").unwrap();
    assert_eq!(resp.answers.len(), 1);
    assert!(!resp.header.authentic_data);
}

#[test]
fn resolve_with_ns_collects_delegation() {
    let mut net = three_levels();
    let mut rec = recursor(&[1], 2 * SECOND);
    let (resp, ns) = resolve_with_ns(&mut rec, &mut net, "www.example.com").unwrap();
    assert_eq!(resp.answers.len(), 1);
    assert!(ns.names.iter().any(|n| is(n, "ns.com")));
    assert!(ns.names.iter().any(|n| is(n, "ns.example.com")));
    assert!(ns.ips.contains(&IpAddr::V4(local(2))));
    assert!(ns.ips.contains(&IpAddr::V4(local(3))));
}

#[test]
fn a_known_delegation_is_started_from() {
    let mut net = three_levels();
    let mut rec = recursor(&[1], 2 * SECOND);
    resolve(&mut rec, &mut net, "www.example.com").unwrap();
    let roots = net.hits(local(1));
    resolve(&mut rec, &mut net, "other.example.com").unwrap();
    assert_eq!(net.hits(local(1)), roots);
    assert_eq!(net.hits(local(3)), 2);
}

#[test]
fn follows_cname_chain() {
    let mut net = Net::new()
        .serve(local(5), |req| {
            let mut m = base(req);
            m.header.authoritative = true;
            let q = asked(req);
            if is(&q, "alias.test") {
                m.answers.push(Record::new(q, 300, RData::Cname(name("real.test"))));
            } else if is(&q, "real.test") {
                m.answers.push(a_record(&q, Ipv4Addr::new(10, 0, 0, 7)));
            }
            m
        })
        .serve(local(4), |req| referral(req, "test", "ns.test", local(5)));
    let mut rec = recursor(&[4], 2 * SECOND);
    let resp = resolve(&mut rec, &mut net, "alias.test").unwrap();
    assert!(resp.answers.iter().any(|r| matches!(r.rdata, RData::Cname(_))));
    assert!(has_a(&resp, Ipv4Addr::new(10, 0, 0, 7)));
    assert!(is(&resp.questions[0].name, "alias.test"));
}

/// Every name of a zone leads to the next one.
fn endless_aliases() -> Net {
    Net::new()
        .serve(local(5), |req| {
            let mut m = base(req);
            m.header.authoritative = true;
            let q = asked(req);
            let label = String::from_utf8(q.label(0).to_ascii_lowercase()).unwrap();
            let n: u32 = label[1..].parse().unwrap();
            let next = name(&format!("c{}.test", n + 1));
            m.answers.push(Record::new(q, 300, RData::Cname(next)));
            m
        })
        .serve(local(4), |req| referral(req, "test", "ns.test", local(5)))
}

#[test]
fn alias_chains_end_at_their_limit() {
    let mut net = endless_aliases();
    let mut rec = recursor(&[4], 2 * SECOND).with_cname_limit(3);
    assert!(matches!(
        resolve(&mut rec, &mut net, "c0.test"),
        Err(RecurseError::TooManyCnames)
    ));
    // One walk, and one for each step that is allowed.
    assert_eq!(net.hits(local(5)), 4);
}

#[test]
fn renamings_end_at_their_limit() {
    let mut net = Net::new()
        .serve(local(5), |req| {
            let mut m = base(req);
            m.header.authoritative = true;
            let q = asked(req);
            if q.num_labels() < 3 {
                return m;
            }
            let owner = q.suffix(q.num_labels() - 1);
            let label = String::from_utf8(owner.label(0).to_ascii_lowercase()).unwrap();
            let n: u32 = label[1..].parse().unwrap();
            let next = name(&format!("d{}.test", n + 1));
            m.answers.push(Record::new(owner, 300, RData::Dname(next)));
            m
        })
        .serve(local(4), |req| referral(req, "test", "ns.test", local(5)));
    let mut rec = recursor(&[4], 2 * SECOND).with_dname_limit(2);
    assert!(matches!(
        resolve(&mut rec, &mut net, "x.d0.test"),
        Err(RecurseError::TooManyDnames)
    ));
}

#[test]
fn qname_minimization_hides_full_name() {
    let mut net = Net::new()
        .serve(local(22), |req| a_answer(req, Ipv4Addr::new(5, 5, 5, 5)))
        .serve(local(21), |req| referral(req, "example.com", "ns.example.com", local(22)))
        .serve(local(20), |req| referral(req, "com", "ns.com", local(21)));
    let mut rec = recursor(&[20], 2 * SECOND);
    let resp = resolve(&mut rec, &mut net, "secret.www.example.com").unwrap();
    assert_eq!(resp.answers.len(), 1);

    let root = IpAddr::V4(local(20));
    let seen: Vec<&Name> =
        net.asked.iter().filter(|(ip, _)| *ip == root).map(|(_, n)| n).collect();
    assert!(!seen.is_empty());
    for n in seen {
        assert!(is(n, "com"));
    }
}

#[test]
fn no_roots_errors() {
    let mut net = Net::new();
    let mut rec = Recursor::new(vec![], SECOND);
    assert!(matches!(resolve(&mut rec, &mut net, "x.com"), Err(RecurseError::NoRoots)));
}

#[test]
fn parent_bailiwick_accepts_valid_sibling_glue() {
    let mut net = Net::new()
        .serve(local(32), |req| a_answer(req, Ipv4Addr::new(93, 184, 216, 34)))
        .serve(local(31), |req| referral(req, "example.com", "ns.example.com", local(32)))
        .serve(local(30), |req| referral(req, "com", "a.gtld.test", local(31)));
    let mut rec = recursor(&[30], 2 * SECOND);
    let resp = resolve(&mut rec, &mut net, "www.example.com").unwrap();
    assert!(has_a(&resp, Ipv4Addr::new(93, 184, 216, 34)));
}

#[test]
fn bailiwick_rejects_out_of_zone_glue() {
    let mut net = Net::new()
        .serve(local(11), |req| {
            let mut m = base(req);
            m.authorities.push(ns_record("victim.com", "ns.evil.org"));
            m.additionals.push(Record::new(name("ns.evil.org"), 172800, RData::A(local(99))));
            m
        })
        .serve(local(10), |req| referral(req, "com", "ns.com", local(11)))
        .serve(local(99), |req| a_answer(req, Ipv4Addr::new(6, 6, 6, 6)));
    let mut rec = recursor(&[10], 500 * MILLI);
    let r = resolve(&mut rec, &mut net, "www.victim.com");
    assert!(matches!(r, Err(RecurseError::NoReachableNs)));
    assert_eq!(net.hits(local(99)), 0);
}

#[test]
fn ns_side_query_caches_only_reachable_answer_chain_addresses() {
    let mut net = Net::new()
        .serve(local(73), |req| a_answer(req, Ipv4Addr::new(6, 6, 6, 6)))
        .serve(local(74), |req| a_answer(req, Ipv4Addr::new(1, 2, 3, 4)))
        .serve(local(71), |req| {
            let q = asked(req);
            let mut m = base(req);
            m.header.authoritative = true;
            if is(&q, "ns.example") {
                m.answers.push(Record::new(q, 300, RData::Cname(name("real.example"))));
            } else {
                m.answers.push(a_record(&q, local(74)));
            }
            m.answers.push(Record::new(name("attacker.invalid"), 3600, RData::A(local(73))));
            m
        })
        .serve(local(70), |req| {
            if is(&asked(req), "test") {
                let mut m = base(req);
                m.authorities.push(Record::new(name("test"), 300, RData::Ns(name("ns.example"))));
                m
            } else {
                referral(req, "example", "ns.example", local(71))
            }
        });
    let mut rec = recursor(&[70], SECOND);
    let resp = resolve(&mut rec, &mut net, "victim.test").unwrap();
    assert!(has_a(&resp, Ipv4Addr::new(1, 2, 3, 4)));
    let key = name("ns.example").canonical_key();
    let (addrs, _) = rec.ns_addr_cached_with_ttl(&key, net.millis()).unwrap();
    assert_eq!(addrs, vec![IpAddr::V4(local(74))]);
    assert_eq!(net.hits(local(73)), 0);
}

#[test]
fn unrelated_positive_answer_is_not_terminal() {
    let mut net = Net::new().serve(local(60), |req| {
        let mut m = base(req);
        m.header.authoritative = true;
        m.answers.push(Record::new(name("attacker.invalid"), 3600, RData::A(local(61))));
        m
    });
    let mut rec = recursor(&[60], 300 * MILLI);
    let result = resolve(&mut rec, &mut net, "victim.test");
    assert!(matches!(result, Err(RecurseError::NoReachableNs)));
}

#[test]
fn terminal_response_strips_unrelated_sections() {
    let mut net = Net::new().serve(local(65), |req| {
        let mut m = a_answer(req, Ipv4Addr::new(1, 2, 3, 4));
        let six = Ipv4Addr::new(6, 6, 6, 6);
        m.answers.push(Record::new(name("attacker.invalid"), 3600, RData::A(six)));
        m.authorities.push(Record::new(
            name("attacker.invalid"),
            3600,
            RData::Ns(name("ns.attacker.invalid")),
        ));
        m.additionals.push(Record::new(name("ns.attacker.invalid"), 3600, RData::A(six)));
        m
    });
    let mut rec = recursor(&[65], 300 * MILLI);
    let resp = resolve(&mut rec, &mut net, "victim").unwrap();
    assert_eq!(resp.answers.len(), 1);
    assert!(is(&resp.answers[0].name, "victim"));
    assert!(resp.authorities.is_empty());
    assert!(resp.additionals.is_empty());
}

#[test]
fn malformed_authority_response_fails_over_to_next_server() {
    let mut net = Net::new()
        .serve(local(66), |req| {
            let mut m = base(req);
            m.header.authoritative = true;
            m.answers.push(Record::new(
                name("attacker.invalid"),
                300,
                RData::A(Ipv4Addr::new(6, 6, 6, 6)),
            ));
            m
        })
        .serve(local(67), |req| a_answer(req, Ipv4Addr::new(1, 2, 3, 4)));
    let mut rec = recursor(&[66, 67], 600 * MILLI);
    let resp = resolve(&mut rec, &mut net, "victim").unwrap();
    assert!(has_a(&resp, Ipv4Addr::new(1, 2, 3, 4)));
    assert_eq!(net.hits(local(66)), 1);
    assert_eq!(net.hits(local(67)), 1);
}

#[test]
fn unrelated_soa_cannot_prove_nxdomain() {
    let mut net = Net::new().serve(local(62), |req| {
        let mut m = base(req);
        m.header.authoritative = true;
        m.header.rcode = RCODE_NXDOMAIN;
        m.authorities.push(Record::new(
            name("attacker.invalid"),
            300,
            RData::Soa(Soa {
                mname: name("ns.attacker.invalid"),
                rname: name("hostmaster.attacker.invalid"),
                serial: 1,
                refresh: 300,
                retry: 60,
                expire: 3600,
                minimum: 60,
            }),
        ));
        m
    });
    let mut rec = recursor(&[62], 300 * MILLI);
    let result = resolve(&mut rec, &mut net, "victim.test");
    assert!(matches!(result, Err(RecurseError::NoReachableNs)));
}

#[test]
fn servfail_authority_ns_cannot_seed_delegation_cache() {
    let mut net = Net::new()
        .serve(local(64), |req| a_answer(req, Ipv4Addr::new(6, 6, 6, 6)))
        .serve(local(63), |req| {
            let mut m = referral(req, "test", "ns.test", local(64));
            m.header.rcode = RCODE_SERVFAIL;
            m
        });
    let mut rec = recursor(&[63], 300 * MILLI);
    let result = resolve(&mut rec, &mut net, "victim.test");
    assert!(matches!(result, Err(RecurseError::NoReachableNs)));
    assert_eq!(net.hits(local(64)), 0);
    assert!(rec.deleg_cached(&name("test"), net.millis()).is_none());
}

#[test]
fn a_referral_with_partial_glue_uses_what_it_has() {
    let mut net = Net::new()
        .serve(local(38), |req| {
            if asked(req).ends_with_ignore_case(&name("slow.test")) {
                return referral(req, "slow.test", "ns.slow.test", local(40));
            }
            let mut m = base(req);
            for ns in ["ns1.partial", "ns2.slow.test", "ns3.slow.test"] {
                m.authorities.push(ns_record("partial", ns));
            }
            m.additionals.push(Record::new(name("ns1.partial"), 3600, RData::A(local(39))));
            m
        })
        .serve(local(39), |req| {
            let mut m = base(req);
            m.header.authoritative = true;
            if is(&asked(req), "host.partial") {
                m.answers.push(a_record(&name("host.partial"), Ipv4Addr::new(10, 0, 0, 38)));
            }
            m
        });
    let mut rec = recursor(&[38], 2 * SECOND);
    let resp = resolve(&mut rec, &mut net, "host.partial").unwrap();
    assert_eq!(resp.header.rcode, RCODE_NOERROR);
    assert!(has_a(&resp, Ipv4Addr::new(10, 0, 0, 38)));
    assert_eq!(net.hits(local(40)), 0);
}

#[test]
fn harden_referral_path_allows_empty_non_terminals() {
    let mut net = Net::new()
        .serve(local(83), |req| referral(req, "test", "ns.test", local(84)))
        .serve(local(84), |req| {
            let q = asked(req);
            let mut m = base(req);
            m.header.authoritative = !q.ends_with_ignore_case(&name("lame.test"));
            if is(&q, "host.ent.test") {
                m.answers.push(a_record(&q, Ipv4Addr::new(10, 0, 0, 84)));
            }
            m
        });
    let mut rec = recursor(&[83], 2 * SECOND).with_harden_referral_path(true);
    let resp = resolve(&mut rec, &mut net, "host.ent.test").unwrap();
    assert!(has_a(&resp, Ipv4Addr::new(10, 0, 0, 84)));
    assert!(resolve(&mut rec, &mut net, "host.lame.test").is_err());
}

#[test]
fn recursion_limit_bounds_followed_delegations() {
    let net = || {
        Net::new()
            .serve(local(80), |req| referral(req, "test", "ns.test", local(81)))
            .serve(local(81), |req| referral(req, "a.test", "ns.a.test", local(82)))
            .serve(local(82), |req| {
                let q = asked(req);
                let mut m = base(req);
                m.header.authoritative = true;
                if is(&q, "host.a.test") {
                    m.answers.push(a_record(&q, Ipv4Addr::new(10, 0, 0, 80)));
                }
                m
            })
    };
    let mut two = recursor(&[80], 2 * SECOND).with_recursion_limit(2);
    assert!(resolve(&mut two, &mut net(), "host.a.test").is_ok());
    let mut one = recursor(&[80], 2 * SECOND).with_recursion_limit(1);
    assert!(resolve(&mut one, &mut net(), "host.a.test").is_err());
}

#[test]
fn endless_delegation_chain_is_bounded_by_total_query_budget() {
    let mut net = Net::new().serve(local(40), |req| {
        let mut m = base(req);
        let q = asked(req);
        // Names that differ with each question, as the server cannot count.
        let depth = q.num_labels();
        let ns = name(&format!("ns{}-{}.chain.test", depth, q.label(0).len()));
        m.authorities.push(Record::new(q, 172800, RData::Ns(ns)));
        m
    });
    let mut rec = recursor(&[40], 5 * SECOND);
    let mut most = 0;
    for _ in 0..3 {
        let before = net.hits(local(40));
        assert!(resolve(&mut rec, &mut net, "a.b.c.d.e.f.g.deep.test").is_err());
        most = most.max(net.hits(local(40)) - before);
    }
    assert!(most > 1);
    assert!(most <= MAX_TOTAL_QUERIES);
}

fn signature(type_covered: u16) -> Rrsig {
    Rrsig {
        type_covered,
        algorithm: 13,
        labels: 2,
        original_ttl: 3600,
        expiration: 0x7fff_ffff,
        inception: 0,
        key_tag: 7,
        signer: name("signed"),
        signature: vec![1; 64],
    }
}

#[test]
fn a_non_validating_recursor_still_carries_signatures_for_do_clients() {
    let mut net = Net::new()
        .serve(local(34), |req| referral(req, "signed", "ns.signed", local(35)))
        .serve(local(35), |req| {
            let q = asked(req);
            let mut m = base(req);
            m.header.authoritative = true;
            if is(&q, "www.signed") {
                m.answers.push(a_record(&q, Ipv4Addr::new(10, 0, 0, 21)));
                // Signatures only for those who ask for them.
                if req.opt().is_some_and(|e| e.dnssec_ok) {
                    m.answers.push(Record::new(q, 3600, RData::Rrsig(signature(TYPE_A))));
                }
            }
            m
        });
    let mut rec = recursor(&[34], 2 * SECOND);
    assert!(!rec.is_validating());
    let resp = resolve(&mut rec, &mut net, "www.signed").unwrap();
    assert_eq!(resp.header.rcode, RCODE_NOERROR);
    assert!(has_a(&resp, Ipv4Addr::new(10, 0, 0, 21)));
    assert!(resp.answers.iter().any(|r| r.rtype == TYPE_RRSIG));
    assert!(!resp.header.authentic_data);
}

/// The servers of `follows_cname_chain`, for a resolver that validates.
fn aliased() -> Net {
    Net::new()
        .serve(local(5), |req| {
            let mut m = base(req);
            m.header.authoritative = true;
            let q = asked(req);
            if is(&q, "alias.test") {
                m.answers.push(Record::new(q, 300, RData::Cname(name("real.test"))));
            } else if is(&q, "real.test") {
                m.answers.push(a_record(&q, Ipv4Addr::new(10, 0, 0, 7)));
            }
            m
        })
        .serve(local(4), |req| referral(req, "test", "ns.test", local(5)))
}

#[test]
fn secure_answers_are_marked_and_bogus_ones_withheld() {
    let secure = SecurityStatus::Secure;
    let insecure = SecurityStatus::Insecure;
    let bogus = SecurityStatus::Bogus(6);
    for (alias, tail, marked, withheld) in [
        (secure, secure, true, false),
        (secure, insecure, false, false),
        (insecure, secure, false, false),
        (secure, bogus, false, true),
        (bogus, secure, false, true),
    ] {
        let mut net = aliased();
        net.verdicts = vec![alias, tail];
        let mut rec = recursor(&[4], 2 * SECOND).with_dnssec();
        let resp = resolve(&mut rec, &mut net, "alias.test").unwrap();
        assert_eq!(resp.header.authentic_data, marked);
        assert_eq!(resp.header.rcode == RCODE_SERVFAIL, withheld);
        assert_eq!(resp.answers.is_empty(), withheld);
        assert_eq!(validation_bogus_total(&net.counter), if withheld { 1 } else { 0 });
    }
}

#[test]
fn unchecked_data_is_given_only_to_those_who_ask_for_it() {
    // Without an alias, under each setting.
    for (permissive, cd, withheld) in
        [(false, false, true), (true, false, false), (false, true, false)]
    {
        let mut net = aliased();
        net.verdicts = vec![SecurityStatus::Bogus(27)];
        let mut rec = recursor(&[4], 2 * SECOND)
            .with_dnssec()
            .with_dnssec_permissive(permissive)
            .with_ignore_cd(false);
        let question = rec.resolve_with_ns_cd(&name("real.test"), TYPE_A, cd, net.now);
        let (resp, _) = work(&mut rec, &mut net, question).0.unwrap();
        assert_eq!(resp.header.rcode == RCODE_SERVFAIL, withheld);
        assert!(!resp.header.authentic_data);
        if withheld {
            assert_eq!(resp.opt().unwrap().ede().unwrap().0, 27);
        } else {
            assert!(has_a(&resp, Ipv4Addr::new(10, 0, 0, 7)));
        }
    }
}

#[test]
fn what_to_validate_is_named() {
    let rec = recursor(&[4], 2 * SECOND).with_dnssec();
    let mut net = aliased();
    let mut counter = ValidationCounter::default();
    let s = rec.resolve(&name("alias.test"), TYPE_A, net.now);
    assert!(matches!(s.work(), Work::Walk(n) if is(&n, "alias.test")));
    let query = make_query(&name("alias.test"), TYPE_A, true);
    let resp = net.ask(at(local(5)), &query, SECOND).unwrap();
    let s = s.walked(&rec, Ok((resp, vec![])), &mut counter);
    assert!(matches!(s.work(), Work::ValidateAnswer(n, t) if is(&n, "alias.test") && t == TYPE_CNAME));
    let s = s.validated(&rec, SecurityStatus::Secure, &mut counter);
    assert!(matches!(s.work(), Work::Walk(n) if is(&n, "real.test")));
    let s = s.walked(&rec, Err(RecurseError::NoResponse), &mut counter);
    assert!(matches!(s.stage, Stage::Over(Err(RecurseError::NoResponse))));
}
