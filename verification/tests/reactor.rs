use onetdns::addr::{IpAddr, Ipv4Addr, Ipv6Addr, SocketAddr};
use onetdns::chain::SecurityStatus;
use onetdns::lane::Session;
use onetdns::message::{
    Dnskey, Header, Message, RData, Record, Soa, RCODE_NOERROR, RCODE_NXDOMAIN, RCODE_SERVFAIL,
    RCODE_YXDOMAIN, TYPE_A, TYPE_CNAME, TYPE_DNAME, TYPE_DNSKEY, TYPE_NS,
};
use onetdns::name::Name;
use onetdns::net::IpNet;
use onetdns::query::{validation_bogus_total, ValidationCounter};
use onetdns::reactor::{submit_outcome, Reactor, Submission, SubmitOutcome};
use onetdns::recursor::{RecurseError, Recursor};
use onetdns::seqs::Replicate;
use onetdns::slots::{Completion, Due, Phase, ReactorConfig};

const MILLI: u64 = 1_000_000;

const SECOND: u64 = 1_000_000_000;

const NOW_SECS: u32 = 1_800_000_000;

const PORT: u16 = 5300;

fn name(s: &str) -> Name {
    let labels: Vec<Vec<u8>> = s
        .split('.')
        .filter(|l| !l.is_empty())
        .map(|l| l.as_bytes().to_vec())
        .collect();
    Name::from_labels(labels).unwrap()
}

fn is(n: &Name, s: &str) -> bool {
    n.eq_ignore_case(&name(s))
}

fn local(d: u8) -> IpAddr {
    IpAddr::V4(Ipv4Addr::new(127, 0, 0, d))
}

fn asked(req: &Message) -> Name {
    req.questions[0].name.clone()
}

fn base(req: &Message) -> Message {
    let mut m = Message::query(req.header.id, name("x"), TYPE_A);
    m.questions = req.replicate().questions;
    m.header = Header { response: true, authoritative: true, ..m.header };
    m
}

fn a_answer(req: &Message) -> Message {
    let mut m = base(req);
    let ip = Ipv4Addr::new(192, 0, 2, 7);
    m.answers.push(Record::new(asked(req), 60, RData::A(ip)));
    m
}

fn recursor(root: IpAddr, timeout: u64) -> Recursor {
    Recursor::new(vec![SocketAddr::new(root, PORT)], timeout)
        .with_port(PORT)
        .with_server_acl(
            vec![],
            vec![
                IpNet { addr: local(0), prefix: 8 },
                IpNet { addr: v6_loopback(), prefix: 128 },
            ],
        )
}

fn v6_loopback() -> IpAddr {
    IpAddr::V6(Ipv6Addr::from_segments([0, 0, 0, 0, 0, 0, 0, 1]))
}

/// A lane with its resolver, a clock, and one server for all addresses that may
/// take its time or keep silent.
struct Lane {
    reactor: Reactor,
    rec: Recursor,
    respond: Box<dyn FnMut(&Message) -> Option<Message>>,
    delay: u64,
    now: u64,
    next_id: u16,
    /// Replies on their way: when they arrive, for whom, from where.
    under_way: Vec<(u64, usize, SocketAddr, Message)>,
    sent: usize,
    /// Servers that nothing can be sent to.
    lost: Vec<IpAddr>,
    /// What validation was asked to look at.
    judged: Vec<(Name, u16, bool)>,
    verdict: Option<SecurityStatus>,
    counter: ValidationCounter,
    out: Vec<Completion>,
    peak: usize,
}

impl Lane {
    fn new(
        cfg: ReactorConfig,
        rec: Recursor,
        respond: impl FnMut(&Message) -> Option<Message> + 'static,
    ) -> Lane {
        Lane {
            reactor: Reactor::new(cfg),
            rec,
            respond: Box::new(respond),
            delay: MILLI,
            now: SECOND,
            next_id: 1,
            under_way: Vec::new(),
            sent: 0,
            lost: Vec::new(),
            judged: Vec::new(),
            verdict: None,
            counter: ValidationCounter::default(),
            out: Vec::new(),
            peak: 0,
        }
    }

    fn millis(&self) -> u64 {
        self.now / MILLI
    }

    fn submit(&mut self, qname: &str, token: u64, cd: bool) -> SubmitOutcome {
        match self.reactor.submit(&self.rec, name(qname), TYPE_A, token, self.now, cd) {
            Submission::Over(outcome) => outcome,
            Submission::Start(i) => {
                let started = self.perform(Due::Start(i));
                submit_outcome(started)
            }
        }
    }

    fn draw_id(&mut self) -> u16 {
        let id = self.next_id;
        self.next_id = self.next_id.wrapping_add(1);
        id
    }

    /// Hands a query to the network, unless it is one of those that get lost.
    fn send(&mut self, i: usize, target: SocketAddr, query: &Message) -> bool {
        if self.lost.contains(&target.ip) {
            return false;
        }
        self.sent += 1;
        if let Some(m) = (self.respond)(query) {
            self.under_way.push((self.now + self.delay, i, target, m));
        }
        true
    }

    /// Sends the first query of a search to the first server that can be reached.
    fn first_send(&mut self, i: usize, session: Session) -> (Due, bool) {
        let mut session = session;
        loop {
            let id = self.draw_id();
            let query = self.rec.fire_attempt(&session, id, &vec![[0b0101_1010u8; 32]]);
            if self.send(i, session.target().unwrap(), &query) {
                self.reactor.started(i, session);
                self.reactor.sent(i, query, false, self.now);
                return (Due::Nothing, false);
            }
            let (again, next, told) = self.reactor.start_send_failed(
                &mut self.rec,
                i,
                session,
                self.now,
                &mut self.out,
            );
            match again {
                Some(t) => session = t,
                None => return (next, told),
            }
        }
    }

    /// Does what is due until nothing is. False where a search that was handed in
    /// just now could not be started.
    fn perform(&mut self, due: Due) -> bool {
        let mut due = due;
        let mut started = true;
        loop {
            self.peak = self.peak.max(self.reactor.live());
            due = match due {
                Due::Nothing => return started,
                Due::Start(i) => {
                    let order = self.reactor.order(i).unwrap();
                    let millis = self.millis();
                    match self.rec.open_search(order, self.now, millis) {
                        Some(session) => {
                            let (next, told) = self.first_send(i, session);
                            started = started && !told;
                            next
                        }
                        None => {
                            let (next, told) =
                                self.reactor.start_failed(i, self.now, &mut self.out);
                            started = started && !told;
                            next
                        }
                    }
                }
                Due::Send(i) | Due::Resend(i) => {
                    let id = self.draw_id();
                    let bits = vec![[0b0101_1010u8; 32]];
                    let session = self.reactor.slots.get(i).unwrap().session.as_ref().unwrap();
                    let target = session.target().unwrap();
                    let query = self.rec.fire_attempt(session, id, &bits);
                    if self.send(i, target, &query) {
                        let resend = matches!(due, Due::Resend(_));
                        self.reactor.sent(i, query, resend, self.now)
                    } else {
                        let resend = matches!(due, Due::Resend(_));
                        self.reactor.send_failed(&mut self.rec, i, resend, self.now)
                    }
                }
                Due::Resume(i) => {
                    let millis = self.millis();
                    self.reactor.resume(
                        &mut self.rec,
                        i,
                        self.now,
                        NOW_SECS,
                        millis,
                        &mut self.out,
                    )
                }
                Due::CheckKeys(i) => {
                    let millis = self.millis();
                    self.reactor.check_keys(&mut self.rec, i, self.now, millis, &mut self.out)
                }
                Due::Judge(i) => {
                    self.judged.push(self.reactor.to_judge(i).unwrap());
                    self.reactor.judge(
                        &self.rec,
                        i,
                        self.verdict,
                        &mut self.counter,
                        self.now,
                        &mut self.out,
                    )
                }
                Due::Finish(i) => self.reactor.finish(i, self.now, &mut self.out),
            };
        }
    }

    /// Lets replies arrive and time pass until something is complete.
    fn drive(&mut self, until: u64) -> Option<Completion> {
        while self.out.is_empty() && self.now < until && self.reactor.live() > 0 {
            let arrival = self.under_way.iter().map(|r| r.0).min();
            let wait = self.reactor.next_deadline_in(self.now).unwrap_or(10 * MILLI).max(1);
            self.now = match arrival {
                Some(t) if t <= self.now + wait => t.max(self.now),
                _ => self.now + wait,
            };
            let mut arrived = Vec::new();
            let mut rest = Vec::new();
            for r in self.under_way.drain(..) {
                if r.0 <= self.now {
                    arrived.push(r);
                } else {
                    rest.push(r);
                }
            }
            self.under_way = rest;
            for (_, i, from, m) in arrived {
                let millis = self.millis();
                let due = self.reactor.reply(
                    &mut self.rec,
                    i,
                    from,
                    m,
                    self.now,
                    NOW_SECS,
                    millis,
                    &mut self.out,
                );
                self.perform(due);
            }
            for i in self.reactor.collect_pollfds() {
                let due = self.reactor.on_tick(&mut self.rec, i, self.now);
                self.perform(due);
            }
        }
        if self.out.is_empty() {
            None
        } else {
            Some(self.out.remove(0))
        }
    }
}

fn answer(c: Option<Completion>) -> Message {
    match c {
        Some(Completion::Answer(_, m)) => m,
        Some(Completion::Fail(_, e)) => panic!("it failed: {e:?}"),
        Some(Completion::Retry(_)) => panic!("it was handed back"),
        None => panic!("nothing was completed"),
    }
}

#[test]
fn reactor_completes_and_merges_via_public_api() {
    let rec = recursor(local(1), 800 * MILLI);
    let mut lane = Lane::new(ReactorConfig::default(), rec, |req| Some(a_answer(req)));

    assert_eq!(lane.submit("example", 1, false), SubmitOutcome::Accepted);
    assert_eq!(lane.submit("example", 2, false), SubmitOutcome::Merged);
    assert_eq!(lane.submit("EXAMPLE", 3, false), SubmitOutcome::Merged);
    assert_eq!(lane.reactor.live(), 1);

    let mut tokens = Vec::new();
    for _ in 0..3 {
        match lane.drive(4 * SECOND) {
            Some(Completion::Answer(t, m)) => {
                assert_eq!(m.answers.len(), 1);
                assert!(matches!(m.answers[0].rdata, RData::A(_)));
                tokens.push(t);
            }
            _ => panic!("an answer was expected"),
        }
    }
    tokens.sort_unstable();
    assert_eq!(tokens, vec![1, 2, 3]);
    assert_eq!(lane.reactor.live(), 0);
    assert_eq!(lane.reactor.merged, 2);
    assert_eq!(lane.reactor.completed, 3);
    assert_eq!(lane.sent, 1);
}

#[test]
fn reactor_refuses_checking_disabled_only_when_cd_is_honored() {
    let ignoring = recursor(local(1), 200 * MILLI);
    let mut lane = Lane::new(ReactorConfig::default(), ignoring, |req| Some(a_answer(req)));
    assert_eq!(lane.submit("example", 1, false), SubmitOutcome::Accepted);
    assert_eq!(lane.submit("example", 2, true), SubmitOutcome::Merged);

    let honoring = recursor(local(1), 200 * MILLI).with_ignore_cd(false);
    let mut guarded = Lane::new(ReactorConfig::default(), honoring, |req| Some(a_answer(req)));
    assert_eq!(guarded.submit("example", 3, true), SubmitOutcome::Rejected);
    assert_eq!(guarded.reactor.live(), 0);
}

#[test]
fn reactor_strips_unrelated_records_like_sync_path() {
    let rec = recursor(local(1), 800 * MILLI);
    let mut lane = Lane::new(ReactorConfig::default(), rec, |req| {
        let mut m = a_answer(req);
        let a = |n: &str, d: u8| {
            Record::new(name(n), 60, RData::A(Ipv4Addr::new(198, 51, 100, d)))
        };
        m.answers.push(a("bank.test", 66));
        m.authorities.push(Record::new(name("unrelated.test"), 60, RData::Ns(name("ns.evil.test"))));
        m.additionals.push(a("ns.evil.test", 67));
        Some(m)
    });
    assert_eq!(lane.submit("example", 1, false), SubmitOutcome::Accepted);
    let msg = answer(lane.drive(4 * SECOND));
    assert_eq!(msg.answers.len(), 1);
    assert!(msg.authorities.is_empty());
    assert!(msg.additionals.is_empty());
}

#[test]
fn reactor_hands_truncated_response_to_sync_path() {
    let rec = recursor(local(1), 500 * MILLI);
    let mut lane = Lane::new(ReactorConfig::default(), rec, |req| {
        let mut m = a_answer(req);
        m.header.truncated = true;
        Some(m)
    });
    assert_eq!(lane.submit("example", 1, false), SubmitOutcome::Accepted);
    assert!(matches!(lane.drive(4 * SECOND), Some(Completion::Retry(1))));
    assert_eq!(lane.reactor.live(), 0);
    assert_eq!(lane.reactor.retried, 1);
}

#[test]
fn reactor_reaches_ipv6_authority_like_sync_path() {
    let rec = recursor(v6_loopback(), 800 * MILLI);
    let mut lane = Lane::new(ReactorConfig::default(), rec, |req| Some(a_answer(req)));
    assert_eq!(lane.submit("example", 1, false), SubmitOutcome::Accepted);
    let msg = answer(lane.drive(4 * SECOND));
    assert_eq!(msg.answers.len(), 1);
}

#[test]
fn reactor_bounds_total_wall_time_of_a_glueless_chain() {
    let rec = recursor(local(1), 300 * MILLI);
    let budget = 900 * MILLI;
    let cfg = ReactorConfig { session_budget: budget, ..ReactorConfig::default() };
    let mut serial = 0u32;
    let mut lane = Lane::new(cfg, rec, move |req| {
        let q = asked(req);
        if q.ends_with_ignore_case(&name("deep")) {
            return None;
        }
        let next = if q.ends_with_ignore_case(&name("chain")) { "deep" } else { "chain" };
        serial += 1;
        let mut m = base(req);
        m.header.authoritative = false;
        for index in 0..8u32 {
            let child = name(&format!("ns{index}.z{serial}.{next}"));
            m.authorities.push(Record::new(q.clone(), 3600, RData::Ns(child)));
        }
        Some(m)
    });
    let started = lane.now;
    assert_eq!(lane.submit("victim.slow", 1, false), SubmitOutcome::Accepted);
    assert!(lane.drive(started + 4 * budget).is_some());
    assert!(lane.now <= started + 4 * budget);
}

#[test]
fn reactor_bounds_glueless_ns_chain_depth() {
    let rec = recursor(local(1), 1500 * MILLI);
    let mut serial = 0u32;
    let mut lane = Lane::new(ReactorConfig::default(), rec, move |req| {
        serial += 1;
        let mut m = base(req);
        m.header.authoritative = false;
        let child = name(&format!("ns{serial}.chain"));
        m.authorities.push(Record::new(name("chain"), 3600, RData::Ns(child)));
        Some(m)
    });
    assert_eq!(lane.submit("victim.chain", 1, false), SubmitOutcome::Accepted);
    assert!(lane.drive(lane.now + 8 * SECOND).is_some());
    assert!(lane.peak <= 65);
    assert!(lane.peak <= ReactorConfig::default().inflight_max * 2);
}

#[test]
fn reactor_shares_one_deadline_across_the_alias_chain() {
    let rec = recursor(local(1), 2 * SECOND).with_cname_limit(40);
    let cfg = ReactorConfig { session_budget: 300 * MILLI, ..ReactorConfig::default() };
    let mut serial = 0u32;
    let mut lane = Lane::new(cfg, rec, move |req| {
        serial += 1;
        let mut m = base(req);
        let target = name(&format!("hop{serial}.chain"));
        m.answers.push(Record::new(asked(req), 60, RData::Cname(target)));
        Some(m)
    });
    lane.delay = 100 * MILLI;
    let started = lane.now;
    assert_eq!(lane.submit("victim.chain", 1, false), SubmitOutcome::Accepted);
    assert!(lane.drive(started + 8 * SECOND).is_some());
    assert!(lane.now - started < 1500 * MILLI);
    assert!(lane.sent <= 8);
}

#[test]
fn reactor_counts_dname_hops_against_the_dname_limit() {
    let rec = recursor(local(1), 800 * MILLI).with_cname_limit(1).with_dname_limit(8);
    let mut given = 0usize;
    let mut lane = Lane::new(ReactorConfig::default(), rec, move |req| {
        let q = asked(req);
        let labels = q.num_labels();
        let mut m = base(req);
        if req.questions[0].qtype == TYPE_NS {
            m.header.authoritative = false;
            m.authorities.push(Record::new(q, 3600, RData::Ns(name("ns.chain"))));
            let glue = RData::A(Ipv4Addr::new(127, 0, 0, 1));
            m.additionals.push(Record::new(name("ns.chain"), 3600, glue));
        } else if labels >= 3 && given < 3 {
            given += 1;
            let target = name(&format!("d{given}.chain"));
            m.answers.push(Record::new(q.suffix(labels - 1), 60, RData::Dname(target)));
        } else {
            let ip = Ipv4Addr::new(192, 0, 2, 9);
            m.answers.push(Record::new(q, 60, RData::A(ip)));
        }
        Some(m)
    });
    assert_eq!(lane.submit("x.a.chain", 1, false), SubmitOutcome::Accepted);
    let msg = answer(lane.drive(lane.now + 5 * SECOND));
    assert!(msg.answers.iter().any(|r| r.rtype == TYPE_DNAME));
}

#[test]
fn reactor_refuses_internal_delegation_like_sync_path() {
    let rec = Recursor::new(vec![SocketAddr::new(local(1), PORT)], 400 * MILLI);
    let mut lane = Lane::new(ReactorConfig::default(), rec, |req| Some(a_answer(req)));
    assert_eq!(lane.submit("example", 1, false), SubmitOutcome::Failed);
    assert_eq!(lane.reactor.live(), 0);
    assert_eq!(lane.sent, 0);
}

fn aliasing(req: &Message) -> Option<Message> {
    let q = asked(req);
    let mut m = base(req);
    let rdata = if is(&q, "alias") {
        RData::Cname(name("target"))
    } else if is(&q, "other") {
        RData::A(Ipv4Addr::new(198, 51, 100, 9))
    } else {
        RData::A(Ipv4Addr::new(192, 0, 2, 1))
    };
    m.answers.push(Record::new(q, 60, rdata));
    Some(m)
}

#[test]
fn reactor_clears_singleflight_index_after_cname_chase() {
    let rec = recursor(local(1), 800 * MILLI);
    let mut lane = Lane::new(ReactorConfig::default(), rec, aliasing);
    assert_eq!(lane.submit("alias", 1, false), SubmitOutcome::Accepted);
    let chased = answer(lane.drive(4 * SECOND));
    let ip = Ipv4Addr::new(192, 0, 2, 1);
    assert!(chased.answers.iter().any(|r| matches!(&r.rdata, RData::A(a) if *a == ip)));
    assert_eq!(lane.reactor.live(), 0);

    assert_eq!(lane.submit("other", 2, false), SubmitOutcome::Accepted);
    assert_eq!(lane.submit("alias", 3, false), SubmitOutcome::Accepted);
}

#[test]
fn reactor_never_relays_forged_authentic_data() {
    let rec = recursor(local(1), 800 * MILLI);
    let mut lane = Lane::new(ReactorConfig::default(), rec, |req| {
        let mut m = a_answer(req);
        m.header.authentic_data = true;
        Some(m)
    });
    assert_eq!(lane.submit("example", 1, false), SubmitOutcome::Accepted);
    let msg = answer(lane.drive(4 * SECOND));
    assert!(!msg.header.authentic_data);
    assert!(!msg.header.authoritative);
}

/// Answers for keys as well.
fn keyed(req: &Message) -> Option<Message> {
    if req.questions[0].qtype == TYPE_DNSKEY {
        let mut m = base(req);
        let key = Dnskey { flags: 257, protocol: 3, algorithm: 13, public_key: vec![1] };
        m.answers.push(Record::new(asked(req), 600, RData::Dnskey(key)));
        Some(m)
    } else {
        Some(a_answer(req))
    }
}

#[test]
fn reactor_lane_validates_dnssec_without_blocking_fetch() {
    let rec = recursor(local(1), 2 * SECOND).with_dnssec();
    let mut lane = Lane::new(ReactorConfig::default(), rec, keyed);
    lane.verdict = Some(SecurityStatus::Secure);
    assert_eq!(lane.submit("example", 1, false), SubmitOutcome::Accepted);
    match lane.drive(6 * SECOND) {
        Some(Completion::Answer(token, msg)) => {
            assert_eq!(token, 1);
            assert_eq!(msg.header.rcode, RCODE_NOERROR);
            assert!(msg.header.authentic_data);
            assert_eq!(msg.answers.iter().filter(|r| r.rtype == TYPE_A).count(), 1);
        }
        _ => panic!("the lane gathers the keys itself"),
    }
    // One query for the answer, one for the keys of the root.
    assert_eq!(lane.sent, 2);
}

#[test]
fn reactor_lane_servfails_forged_signature() {
    let rec = recursor(local(1), 2 * SECOND).with_dnssec();
    let mut lane = Lane::new(ReactorConfig::default(), rec, keyed);
    lane.verdict = Some(SecurityStatus::Bogus(6));
    assert_eq!(lane.submit("example", 1, false), SubmitOutcome::Accepted);
    let msg = answer(lane.drive(6 * SECOND));
    assert_eq!(msg.header.rcode, RCODE_SERVFAIL);
    assert!(!msg.header.authentic_data);
    assert_eq!(validation_bogus_total(&lane.counter), 1);
}

#[test]
fn what_cannot_be_judged_is_handed_back() {
    let rec = recursor(local(1), 2 * SECOND).with_dnssec();
    let mut lane = Lane::new(ReactorConfig::default(), rec, keyed);
    lane.verdict = None;
    assert_eq!(lane.submit("example", 7, false), SubmitOutcome::Accepted);
    assert!(matches!(lane.drive(6 * SECOND), Some(Completion::Retry(7))));
    assert_eq!(lane.reactor.live(), 0);
}

#[test]
fn silence_ends_a_search() {
    let rec = recursor(local(1), 400 * MILLI);
    let mut lane = Lane::new(ReactorConfig::default(), rec, |_| None);
    assert_eq!(lane.submit("example", 4, false), SubmitOutcome::Accepted);
    assert!(matches!(
        lane.drive(10 * SECOND),
        Some(Completion::Fail(4, RecurseError::NoResponse))
    ));
    assert_eq!(lane.reactor.failed, 1);
    assert_eq!(lane.reactor.next_deadline_in(lane.now), None);
}

#[test]
fn forged_replies_are_passed_over() {
    let rec = recursor(local(1), 400 * MILLI);
    let mut lane = Lane::new(ReactorConfig::default(), rec, |req| Some(a_answer(req)));
    assert_eq!(lane.submit("example", 1, false), SubmitOutcome::Accepted);
    let (_, i, from, genuine) = lane.under_way.remove(0);
    let mut wrong_id = genuine.replicate();
    wrong_id.header.id ^= 1;
    let mut other_case = genuine.replicate();
    let mut labels = other_case.questions[0].name.labels();
    labels[0][0] ^= 0x20;
    other_case.questions[0].name = Name::from_labels(labels).unwrap();
    let elsewhere = SocketAddr::new(local(9), PORT);
    for (source, m) in [
        (from, wrong_id),
        (from, other_case),
        (elsewhere, genuine.replicate()),
    ] {
        let due = lane.reactor.reply(
            &mut lane.rec,
            i,
            source,
            m,
            lane.now,
            NOW_SECS,
            0,
            &mut lane.out,
        );
        assert_eq!(due, Due::Nothing);
        assert!(lane.out.is_empty());
        assert!(matches!(lane.reactor.slots.get(i).unwrap().phase, Phase::Searching));
    }
    let due = lane.reactor.reply(
        &mut lane.rec,
        i,
        from,
        genuine,
        lane.now,
        NOW_SECS,
        0,
        &mut lane.out,
    );
    lane.perform(due);
    assert!(matches!(lane.out[0], Completion::Answer(1, _)));
}

#[test]
fn a_full_lane_takes_no_more() {
    let cfg = ReactorConfig { inflight_max: 2, ..ReactorConfig::default() };
    let rec = recursor(local(1), 400 * MILLI);
    let mut lane = Lane::new(cfg, rec, |_| None);
    assert!(lane.reactor.has_capacity());
    assert_eq!(lane.submit("a", 1, false), SubmitOutcome::Accepted);
    assert_eq!(lane.submit("b", 2, false), SubmitOutcome::Accepted);
    assert!(!lane.reactor.has_capacity());
    assert_eq!(lane.submit("c", 3, false), SubmitOutcome::Rejected);
    assert_eq!(lane.reactor.collect_pollfds().len(), 2);
}

#[test]
fn servers_that_cannot_be_reached_are_passed_over() {
    let roots = vec![SocketAddr::new(local(1), PORT), SocketAddr::new(local(2), PORT)];
    let build = || {
        Recursor::new(roots.clone(), 800 * MILLI)
            .with_port(PORT)
            .with_server_acl(vec![], vec![IpNet { addr: local(0), prefix: 8 }])
    };
    let mut lane = Lane::new(ReactorConfig::default(), build(), |req| Some(a_answer(req)));
    lane.lost = vec![local(1)];
    assert_eq!(lane.submit("example", 1, false), SubmitOutcome::Accepted);
    assert_eq!(answer(lane.drive(4 * SECOND)).answers.len(), 1);
    assert_eq!(lane.sent, 1);

    // With none left nothing was started, and nobody is told twice.
    let mut cut_off = Lane::new(ReactorConfig::default(), build(), |req| Some(a_answer(req)));
    cut_off.lost = vec![local(1), local(2)];
    assert_eq!(cut_off.submit("example", 1, false), SubmitOutcome::Failed);
    assert!(cut_off.out.is_empty());
    assert_eq!(cut_off.reactor.live(), 0);
    assert_eq!(cut_off.reactor.failed, 0);
}

/// A lane with two root servers that never reply.
fn silent_pair() -> Lane {
    let roots = vec![SocketAddr::new(local(1), PORT), SocketAddr::new(local(2), PORT)];
    let rec = Recursor::new(roots, 800 * MILLI)
        .with_port(PORT)
        .with_server_acl(vec![], vec![IpNet { addr: local(0), prefix: 8 }]);
    Lane::new(ReactorConfig::default(), rec, |_| None)
}

#[test]
fn the_last_query_goes_out_before_a_search_ends_with_its_time() {
    let mut lane = silent_pair();
    assert_eq!(lane.submit("example", 1, false), SubmitOutcome::Accepted);
    assert_eq!(lane.sent, 1);
    let i = lane.reactor.collect_pollfds()[0];
    lane.now += 60 * SECOND;
    let due = lane.reactor.on_tick(&mut lane.rec, i, lane.now);
    assert_eq!(due, Due::Resend(i));
    lane.perform(due);
    assert_eq!(lane.sent, 2);
    assert!(matches!(lane.out[0], Completion::Fail(1, RecurseError::NoResponse)));
    assert_eq!(lane.reactor.live(), 0);

    // A server that cannot be reached is passed over even then.
    let mut cut_off = silent_pair();
    assert_eq!(cut_off.submit("example", 1, false), SubmitOutcome::Accepted);
    cut_off.lost = vec![local(1), local(2)];
    cut_off.now += 60 * SECOND;
    let due = cut_off.reactor.on_tick(&mut cut_off.rec, i, cut_off.now);
    assert_eq!(due, Due::Resend(i));
    cut_off.perform(due);
    assert_eq!(cut_off.sent, 1);
    assert!(matches!(cut_off.out[0], Completion::Fail(1, RecurseError::NoResponse)));
}

#[test]
fn a_query_that_cannot_be_written_ends_its_search() {
    for resend in [false, true] {
        let mut lane = silent_pair();
        assert_eq!(lane.submit("example", 1, false), SubmitOutcome::Accepted);
        let i = lane.reactor.collect_pollfds()[0];
        let due = lane.reactor.encode_failed(i, resend);
        lane.perform(due);
        assert_eq!(lane.sent, 1);
        let expected =
            if resend { RecurseError::NoResponse } else { RecurseError::NoReachableNs };
        assert!(matches!(&lane.out[0], Completion::Fail(1, e) if *e == expected));
    }
}

#[test]
fn a_search_that_can_go_nowhere_fails() {
    let referral = |req: &Message| {
        let mut m = base(req);
        m.header.authoritative = false;
        m.authorities.push(Record::new(name("example"), 60, RData::Ns(name("ns.example"))));
        m.additionals.push(Record::new(
            name("ns.example"),
            60,
            RData::A(Ipv4Addr::new(127, 0, 0, 9)),
        ));
        m
    };
    let rec = recursor(local(1), 800 * MILLI);
    let mut lane = Lane::new(ReactorConfig::default(), rec, move |req| Some(referral(req)));
    lane.lost = vec![local(9)];
    assert_eq!(lane.submit("www.example", 1, false), SubmitOutcome::Accepted);
    assert!(matches!(
        lane.drive(4 * SECOND),
        Some(Completion::Fail(1, RecurseError::NoReachableNs))
    ));

    // One that fell silent, with a second that cannot be reached.
    let roots = vec![SocketAddr::new(local(1), PORT), SocketAddr::new(local(2), PORT)];
    let rec = Recursor::new(roots, 800 * MILLI)
        .with_port(PORT)
        .with_server_acl(vec![], vec![IpNet { addr: local(0), prefix: 8 }]);
    let mut lane = Lane::new(ReactorConfig::default(), rec, |_| None);
    lane.lost = vec![local(2)];
    assert_eq!(lane.submit("example", 1, false), SubmitOutcome::Accepted);
    assert!(matches!(
        lane.drive(4 * SECOND),
        Some(Completion::Fail(1, RecurseError::NoResponse))
    ));
    assert_eq!(lane.sent, 1);
}

#[test]
fn every_alias_is_judged_where_it_stands() {
    let respond = |req: &Message| {
        if req.questions[0].qtype == TYPE_DNSKEY {
            keyed(req)
        } else {
            aliasing(req)
        }
    };
    let rec = recursor(local(1), 2 * SECOND).with_dnssec();
    let mut lane = Lane::new(ReactorConfig::default(), rec, respond);
    lane.verdict = Some(SecurityStatus::Secure);
    assert_eq!(lane.submit("alias", 1, false), SubmitOutcome::Accepted);
    let msg = answer(lane.drive(6 * SECOND));
    assert!(msg.header.authentic_data);
    assert_eq!(lane.judged.len(), 2);
    assert!(is(&lane.judged[0].0, "alias"));
    assert_eq!((lane.judged[0].1, lane.judged[0].2), (TYPE_CNAME, true));
    assert!(!is(&lane.judged[1].0, "alias"));
    assert_eq!((lane.judged[1].1, lane.judged[1].2), (TYPE_A, true));
    assert!(lane.reactor.to_judge(0).is_none());
}

#[test]
fn nothing_of_a_bogus_alias_goes_out() {
    let respond = |req: &Message| {
        if req.questions[0].qtype == TYPE_DNSKEY {
            keyed(req)
        } else {
            aliasing(req)
        }
    };
    for permissive in [false, true] {
        let rec = recursor(local(1), 2 * SECOND).with_dnssec().with_dnssec_permissive(permissive);
        let mut lane = Lane::new(ReactorConfig::default(), rec, respond);
        lane.verdict = Some(SecurityStatus::Bogus(6));
        assert_eq!(lane.submit("alias", 1, false), SubmitOutcome::Accepted);
        let msg = answer(lane.drive(6 * SECOND));
        assert!(!msg.header.authentic_data);
        if permissive {
            assert_eq!(msg.header.rcode, RCODE_NOERROR);
            assert_eq!(msg.answers.len(), 2);
            assert_eq!(lane.counter.bogus_total, 0);
        } else {
            assert_eq!(msg.header.rcode, RCODE_SERVFAIL);
            assert!(msg.answers.is_empty());
            assert_eq!(msg.opt().unwrap().ede().unwrap().0, 6);
            assert_eq!(lane.counter.bogus_total, 1);
        }
    }
}

/// The server for keys, and `other` for everything else.
fn beside_keys(
    other: impl Fn(&Message) -> Option<Message> + 'static,
) -> impl FnMut(&Message) -> Option<Message> + 'static {
    move |req: &Message| {
        if req.questions[0].qtype == TYPE_DNSKEY {
            keyed(req)
        } else {
            other(req)
        }
    }
}

#[test]
fn a_renaming_that_grows_too_long_is_told_as_such() {
    let rec = recursor(local(1), 2 * SECOND).with_dnssec();
    let respond = beside_keys(|req| {
        let mut m = base(req);
        m.header.rcode = RCODE_YXDOMAIN;
        m.answers.push(Record::new(Name::root(), 60, RData::Dname(name("far.away"))));
        m.answers.push(Record::new(name("far.away"), 60, RData::A(Ipv4Addr::new(192, 0, 2, 9))));
        Some(m)
    });
    let mut lane = Lane::new(ReactorConfig::default(), rec, respond);
    lane.verdict = Some(SecurityStatus::Secure);
    assert_eq!(lane.submit("long", 1, false), SubmitOutcome::Accepted);
    let msg = answer(lane.drive(6 * SECOND));
    assert_eq!(msg.header.rcode, RCODE_YXDOMAIN);
    assert!(!msg.header.authentic_data);
    assert!(!msg.header.authoritative);
    assert_eq!(msg.answers.len(), 1);
    assert_eq!(msg.answers[0].rtype, TYPE_DNAME);
    assert!(lane.judged.is_empty());
}

#[test]
fn questions_about_anchors_count_where_they_are_asked() {
    let sentinel = "root-key-sentinel-not-ta-20326";
    let respond = |req: &Message| {
        if is(&asked(req), "alias") {
            let mut m = base(req);
            m.answers.push(Record::new(
                asked(req),
                60,
                RData::Cname(name("root-key-sentinel-not-ta-20326")),
            ));
            Some(m)
        } else {
            Some(a_answer(req))
        }
    };
    for (qname, rcode, answers) in [(sentinel, RCODE_SERVFAIL, 0), ("alias", RCODE_NOERROR, 2)] {
        let rec = recursor(local(1), 2 * SECOND).with_dnssec();
        let mut lane = Lane::new(ReactorConfig::default(), rec, beside_keys(respond));
        lane.verdict = Some(SecurityStatus::Secure);
        assert_eq!(lane.submit(qname, 1, false), SubmitOutcome::Accepted);
        let msg = answer(lane.drive(6 * SECOND));
        assert_eq!(msg.header.rcode, rcode);
        assert_eq!(msg.answers.len(), answers);
    }
}

#[test]
fn an_answer_behind_aliases_repeats_the_question() {
    let rec = recursor(local(1), 2 * SECOND);
    let mut lane = Lane::new(ReactorConfig::default(), rec, aliasing);
    assert_eq!(lane.submit("alias", 1, false), SubmitOutcome::Accepted);
    let msg = answer(lane.drive(6 * SECOND));
    assert_eq!(msg.questions.len(), 1);
    assert!(is(&msg.questions[0].name, "alias"));
    assert_eq!(msg.answers.len(), 2);
    assert!(msg.header.response && msg.header.recursion_available);
}

#[test]
fn behind_an_alias_the_data_counts_for_more_than_the_code() {
    let rec = recursor(local(1), 2 * SECOND);
    let respond = |req: &Message| {
        let mut m = aliasing(req)?;
        if !is(&asked(req), "alias") {
            m.header.rcode = RCODE_NXDOMAIN;
            let soa = Soa {
                mname: name("ns"),
                rname: name("hostmaster"),
                serial: 1,
                refresh: 3600,
                retry: 600,
                expire: 86_400,
                minimum: 300,
            };
            m.authorities.push(Record::new(Name::root(), 60, RData::Soa(soa)));
        }
        Some(m)
    };
    let mut lane = Lane::new(ReactorConfig::default(), rec, respond);
    assert_eq!(lane.submit("alias", 1, false), SubmitOutcome::Accepted);
    let msg = answer(lane.drive(6 * SECOND));
    assert_eq!(msg.header.rcode, RCODE_NXDOMAIN);
    assert_eq!(msg.answers.len(), 2);
    assert_eq!(msg.answers[1].rtype, TYPE_A);
}
