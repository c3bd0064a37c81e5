use onetdns::addr::{IpAddr, Ipv4Addr, Ipv6Addr, SocketAddr};
use onetdns::cache::{DelegationEntry, DnskeyEntry, NsAddrEntry, TtlLifetime, ZoneTrust};
use onetdns::chain::{chain_validity_ttl, extract_ds, ChainLink, DsEvidence, ZoneKeys};
use onetdns::infra::{infra_score, InfraKey, INFRA_FAIL_COOLDOWN_NANOS, INFRA_FAIL_PENALTY_MS};
use onetdns::message::{
    Dnskey, Ds, Message, RData, Record, Rrsig, TYPE_A, TYPE_DNSKEY, TYPE_DS, TYPE_NSEC,
};
use onetdns::name::Name;
use onetdns::net::IpNet;
use onetdns::query::make_query;
use onetdns::recursor::{
    default_roots, root_trust_anchors, RecurseError, Recursor, MAX_CACHED_NS_ADDRS,
};
use onetdns::search::Attempt;
use onetdns::seqs::Replicate;

const MILLI: u64 = 1_000_000;

const SECOND: u64 = 1_000_000_000;

/// A point in time for the caches, in milliseconds.
const NOW: u64 = 1_000_000;

const NOW_SECS: u32 = 1_800_000_000;

fn name(s: &str) -> Name {
    let labels: Vec<Vec<u8>> = s
        .split('.')
        .filter(|l| !l.is_empty())
        .map(|l| l.as_bytes().to_vec())
        .collect();
    Name::from_labels(labels).unwrap()
}

fn name_key(s: &str) -> Name {
    name(s).canonical_key()
}

fn v4(a: u8, b: u8, c: u8, d: u8) -> IpAddr {
    IpAddr::V4(Ipv4Addr::new(a, b, c, d))
}

fn at(ip: IpAddr) -> SocketAddr {
    SocketAddr::new(ip, 53)
}

fn no_keys() -> ZoneKeys {
    ZoneKeys { records: vec![], signatures: vec![] }
}

fn cached(rec: &mut Recursor, key: &Name) -> Option<Vec<IpAddr>> {
    rec.ns_addr_cached_with_ttl(key, NOW).map(|(addrs, _)| addrs)
}

fn rrsig(type_covered: u16, labels: u8, expiration: u32, signer: &str) -> Rrsig {
    Rrsig {
        type_covered,
        algorithm: 13,
        labels,
        original_ttl: 300,
        expiration,
        inception: NOW_SECS - 60,
        key_tag: 1,
        signer: name(signer),
        signature: vec![0; 64],
    }
}

#[test]
fn ns_addr_cache_reuses_until_expiry() {
    let mut rec = Recursor::new(vec![], SECOND);
    let ip = v4(192, 0, 2, 53);

    let active = name_key("ns1.azure-dns.net.");
    rec.ns_addr_store(active.clone(), &vec![ip], 300, NOW);
    assert_eq!(cached(&mut rec, &active), Some(vec![ip]));
    assert_eq!(rec.ns_addr_cached_with_ttl(&active, NOW + 299_999), Some((vec![ip], 1)));
    assert_eq!(rec.ns_addr_cached_with_ttl(&active, NOW + 300_000), None);

    rec.ns_addr_cache.put(
        name_key("stale.azure-dns.net."),
        NsAddrEntry { addrs: vec![ip], lifetime: TtlLifetime::expired() },
    );
    let stale = name_key("stale.azure-dns.net.");
    assert_eq!(cached(&mut rec, &stale), None);
    assert!(!rec.ns_addr_cache.contains_key(&stale));
}

#[test]
fn recursive_cache_keys_preserve_raw_name_octets() {
    let first = Name::from_labels(vec![vec![0xff]]).unwrap();
    let second = Name::from_labels(vec![vec![0xfe]]).unwrap();
    assert_ne!(first.canonical_key(), second.canonical_key());
    assert_eq!(name("WWW.example").canonical_key(), name("www.EXAMPLE").canonical_key());

    let mut rec = Recursor::new(vec![], SECOND);
    let first_ip = v4(192, 0, 2, 1);
    let second_ip = v4(192, 0, 2, 2);
    rec.ns_addr_store(first.canonical_key(), &vec![first_ip], 300, NOW);
    rec.ns_addr_store(second.canonical_key(), &vec![second_ip], 300, NOW);
    assert_eq!(cached(&mut rec, &first.canonical_key()), Some(vec![first_ip]));
    assert_eq!(cached(&mut rec, &second.canonical_key()), Some(vec![second_ip]));

    rec.deleg_store(&first, &vec![at(first_ip)], 300, NOW);
    rec.deleg_store(&second, &vec![at(second_ip)], 300, NOW);
    assert_eq!(rec.deleg_cached(&first, NOW), Some(vec![at(first_ip)]));
    assert_eq!(rec.deleg_cached(&second, NOW), Some(vec![at(second_ip)]));
    assert_ne!(InfraKey::new(first_ip, &first), InfraKey::new(first_ip, &second));
}

#[test]
fn zero_ttl_ns_state_is_not_cached_and_large_entries_are_bounded() {
    let mut rec = Recursor::new(vec![], SECOND);
    let zone = name("example");
    let addresses: Vec<IpAddr> = (0..100).map(|n| v4(192, 0, 2, n)).collect();
    let servers: Vec<SocketAddr> = addresses.iter().map(|address| at(*address)).collect();

    let zero = name_key("ns.zero.example");
    rec.ns_addr_store(zero.clone(), &addresses, 0, NOW);
    rec.deleg_store(&zone, &servers, 0, NOW);
    assert!(cached(&mut rec, &zero).is_none());
    assert!(rec.deleg_cached(&zone, NOW).is_none());

    let large = name_key("ns.large.example");
    rec.ns_addr_store(large.clone(), &addresses, 300, NOW);
    rec.deleg_store(&zone, &servers, 300, NOW);
    assert_eq!(cached(&mut rec, &large).unwrap().len(), MAX_CACHED_NS_ADDRS);
    assert_eq!(rec.deleg_cached(&zone, NOW).unwrap().len(), MAX_CACHED_NS_ADDRS);
}

#[test]
fn recursive_ns_state_never_outlives_authoritative_ttl() {
    assert_eq!(std::mem::size_of::<TtlLifetime>(), 8);
    let mut rec = Recursor::new(vec![], SECOND);
    let zone = name("example");
    let address = v4(192, 0, 2, 1);
    let key = name_key("ns.short.example");
    let ns_left =
        |rec: &Recursor| rec.ns_addr_cache.peek(&key).unwrap().lifetime.remaining(NOW).unwrap();
    let deleg_left = |rec: &Recursor| {
        rec.deleg_cache.peek(&zone.canonical_key()).unwrap().lifetime.remaining(NOW).unwrap()
    };

    rec.ns_addr_store(key.clone(), &vec![address], 1, NOW);
    rec.deleg_store(&zone, &vec![at(address)], 1, NOW);
    assert_eq!(ns_left(&rec), 1_000);
    assert_eq!(deleg_left(&rec), 1_000);

    rec.ns_addr_store(key.clone(), &vec![address], 86_400, NOW);
    rec.deleg_store(&zone, &vec![at(address)], 86_400, NOW);
    assert_eq!(ns_left(&rec), 86_400_000);
    assert_eq!(deleg_left(&rec), 86_400_000);

    rec.ns_addr_store(key.clone(), &vec![address], u32::MAX, NOW);
    assert!(ns_left(&rec) / 1_000 >= u64::from(u32::MAX) - 1);
}

#[test]
fn configured_max_ttl_bounds_every_recursive_cache() {
    assert_eq!(
        Recursor::new(vec![], SECOND).with_recursive_cache_ttl_max(0).recursive_cache_ttl_max,
        0
    );
    assert_eq!(
        Recursor::new(vec![], SECOND)
            .with_recursive_cache_ttl_max(u32::MAX)
            .recursive_cache_ttl_max,
        u32::MAX
    );

    let mut rec = Recursor::new(vec![], SECOND).with_recursive_cache_ttl_max(5);
    let zone = name("example");
    let address = v4(192, 0, 2, 1);
    let key = name_key("ns.configured.example");

    rec.ns_addr_store(key.clone(), &vec![address], 300, NOW);
    rec.deleg_store(&zone, &vec![at(address)], 300, NOW);
    rec.dnskey_store(key.clone(), no_keys(), 300, NOW);

    assert_eq!(rec.ns_addr_cache.peek(&key).unwrap().lifetime.remaining(NOW), Some(5_000));
    assert_eq!(
        rec.deleg_cache.peek(&zone.canonical_key()).unwrap().lifetime.remaining(NOW),
        Some(5_000)
    );
    assert_eq!(rec.dnskey_cache.peek(&key).unwrap().lifetime.remaining(NOW), Some(5_000));
}

#[test]
fn validated_key_cache_expires_and_follows_anchor_rotation() {
    let mut rec = Recursor::new(vec![], SECOND);
    let key = name_key("example");
    let anchors = rec.anchor_generation;

    rec.validated_keys_store(key.clone(), ZoneTrust::Secure(Vec::new()), anchors, 0, NOW);
    assert!(rec.validated_keys_cached(&key, anchors, NOW).is_none());

    rec.validated_keys_store(key.clone(), ZoneTrust::Secure(Vec::new()), anchors, 300, NOW);
    assert!(rec.validated_keys_cached(&key, anchors, NOW).is_some());

    rec.set_trust_anchors(vec![]);
    let rotated = rec.anchor_generation;
    assert_ne!(anchors, rotated);
    assert!(rec.validated_keys_cached(&key, rotated, NOW).is_none());

    assert!(rec.validated_keys_cached(&key, anchors, NOW).is_none());
}

#[test]
fn dnskey_cache_honors_zero_ttl_and_expiry() {
    let mut rec = Recursor::new(vec![], SECOND);
    let key = name_key("example");
    let keys = || ZoneKeys {
        records: vec![Record::new(
            name("example"),
            300,
            RData::Unknown(TYPE_DNSKEY, vec![1, 2, 3]),
        )],
        signatures: vec![rrsig(TYPE_DNSKEY, 1, NOW_SECS + 300, "example")],
    };

    rec.dnskey_store(key.clone(), keys(), 0, NOW);
    assert!(rec.dnskey_cached(&key, NOW).is_none());

    rec.dnskey_store(key.clone(), keys(), 300, NOW);
    assert!(rec.dnskey_cached(&key, NOW).is_some());
    // What is handed out lives no longer than what is remembered.
    assert_eq!(rec.dnskey_cached(&key, NOW + 100_000).unwrap().records[0].ttl, 200);
    rec.dnskey_cache.put(
        key.clone(),
        DnskeyEntry { keys: no_keys(), lifetime: TtlLifetime::expired() },
    );
    assert!(rec.dnskey_cached(&key, NOW).is_none());
}

#[test]
fn ds_rrsig_ttl_bounds_validated_key_cache_lifetime() {
    let child = name("child.example");
    let ds = || Ds { key_tag: 1234, algorithm: 13, digest_type: 2, digest: vec![7; 32] };
    let ds_record = Record::new(child.clone(), 300, RData::Ds(ds()));
    let signature = rrsig(TYPE_DS, 2, NOW_SECS + 300, "example");
    let signature_record = Record::new(child.clone(), 7, RData::Rrsig(signature));
    let mut response = Message::default();
    response.authorities = vec![ds_record, signature_record];

    let found = extract_ds(&response, &child);
    assert_eq!(found.ds_records[0].ttl, 7);
    assert_eq!(found.ds_rrsigs.len(), 1);
    assert_eq!(found.ds, vec![ds()]);

    let link =
        ChainLink { zone: child, dnskeys: vec![], dnskey_rrsigs: vec![], below: found };
    assert_eq!(chain_validity_ttl(&vec![link], NOW_SECS), 7);
}

#[test]
fn extract_ds_parses_each_denial_signature_once() {
    let child = name("child.example");
    let nsec = || Record::new(name("child.example"), 3600, RData::Unknown(TYPE_NSEC, vec![0, 0]));
    let signature = Record::new(
        name("child.example"),
        3600,
        RData::Rrsig(rrsig(TYPE_NSEC, 2, 0x7fff_ffff, "example")),
    );
    let mut response = Message::default();
    response.authorities = vec![nsec(), nsec(), signature];

    let found = extract_ds(&response, &child);
    assert_eq!(found.nsec_records.len(), 2);
    assert_eq!(found.nsec_rrsigs.len(), 1);
}

#[test]
fn delegation_cache_deepest_evict_and_expiry() {
    let mut rec = Recursor::new(vec![], SECOND);
    let com = name("com");
    let ms = name("microsoft.com");
    let com_srv = vec![at(v4(192, 5, 6, 30))];
    let ms_srv = vec![at(v4(13, 107, 222, 41))];
    rec.deleg_store(&com, &com_srv, 3600, NOW);
    rec.deleg_store(&ms, &ms_srv, 3600, NOW);

    let q = name("eu-mobile.events.data.microsoft.com");
    let (zone, servers) = rec.deepest_cached_delegation(&q, NOW).unwrap();
    assert!(zone.eq_exact(&name("microsoft.com")));
    assert_eq!(servers, ms_srv);

    rec.deleg_evict_path(&q);
    assert!(rec.deepest_cached_delegation(&q, NOW).is_none());

    rec.deleg_cache.put(
        com.canonical_key(),
        DelegationEntry { servers: com_srv.clone(), lifetime: TtlLifetime::expired() },
    );
    assert!(rec.deleg_cached(&com, NOW).is_none());
}

#[test]
fn recursive_state_caches_enforce_exact_lru_capacity() {
    let ip1 = v4(192, 0, 2, 1);
    let ip2 = v4(192, 0, 2, 2);
    let mut rec = Recursor::new(vec![], SECOND).with_ns_cache_max(2);

    let ns1 = name_key("ns1.test");
    let ns2 = name_key("ns2.test");
    rec.ns_addr_store(ns1.clone(), &vec![ip1], 300, NOW);
    rec.ns_addr_store(ns2.clone(), &vec![ip2], 300, NOW);
    assert_eq!(cached(&mut rec, &ns1), Some(vec![ip1]));
    rec.ns_addr_store(name_key("ns3.test"), &vec![ip1], 300, NOW);
    assert!(cached(&mut rec, &ns2).is_none());
    assert_eq!(rec.ns_addr_cache.len(), 2);

    let a = name("a.test");
    let b = name("b.test");
    let c = name("c.test");
    let server = vec![at(ip1)];
    rec.deleg_store(&a, &server, 300, NOW);
    rec.deleg_store(&b, &server, 300, NOW);
    assert!(rec.deleg_cached(&a, NOW).is_some());
    rec.deleg_store(&c, &server, 300, NOW);
    assert!(rec.deleg_cached(&b, NOW).is_none());
    assert_eq!(rec.deleg_cache.len(), 2);

    rec.infra_fail(ip1, &a, SECOND);
    rec.infra_fail(ip1, &b, SECOND);
    rec.infra_success(ip1, &a, 10 * MILLI);
    rec.infra_fail(ip1, &c, SECOND);
    assert!(rec.infra.peek(&InfraKey::new(ip1, &a)).is_some());
    assert!(rec.infra.peek(&InfraKey::new(ip1, &b)).is_none());
    assert!(rec.infra.peek(&InfraKey::new(ip1, &c)).is_some());
    assert_eq!(rec.infra.len(), 2);

    let key1 = name_key("key1.test");
    let key2 = name_key("key2.test");
    rec.dnskey_store(key1.clone(), no_keys(), 300, NOW);
    rec.dnskey_store(key2.clone(), no_keys(), 300, NOW);
    assert!(rec.dnskey_cached(&key1, NOW).is_some());
    rec.dnskey_store(name_key("key3.test"), no_keys(), 300, NOW);
    assert!(rec.dnskey_cached(&key2, NOW).is_none());
    assert_eq!(rec.dnskey_cache.len(), 2);

    let anchors = rec.anchor_generation;
    let secure = || ZoneTrust::Secure(Vec::new());
    let validated1 = name_key("validated1.test");
    let validated2 = name_key("validated2.test");
    rec.validated_keys_store(validated1.clone(), secure(), anchors, 300, NOW);
    rec.validated_keys_store(validated2.clone(), secure(), anchors, 300, NOW);
    assert!(rec.validated_keys_cached(&validated1, anchors, NOW).is_some());
    rec.validated_keys_store(name_key("validated3.test"), secure(), anchors, 300, NOW);
    assert!(rec.validated_keys_cached(&validated2, anchors, NOW).is_none());
    assert_eq!(rec.validated_keys.len(), 2);
}

#[test]
fn infra_orders_fast_first_failed_last() {
    let mut r = Recursor::new(vec![], 100 * MILLI);
    let fast = at(v4(8, 8, 8, 8));
    let slow = at(v4(9, 9, 9, 9));
    let dead = at(v4(1, 0, 0, 1));
    let zone = name("example");
    r.infra_success(fast.ip, &zone, 5 * MILLI);
    r.infra_success(slow.ip, &zone, 200 * MILLI);
    r.infra_fail(dead.ip, &zone, SECOND);

    assert_eq!(r.order_by_infra(&vec![dead, slow, fast], &zone, SECOND), vec![fast, slow]);
}

#[test]
fn ip_family_filter_and_prefer() {
    let four = at(v4(1, 2, 3, 4));
    let six = at(IpAddr::V6(Ipv6Addr::from_segments([0x2001, 0xdb8, 0, 0, 0, 0, 0, 1])));
    let servers = vec![four, six];
    let zone = name("example");

    let r = Recursor::new(vec![], 50 * MILLI).with_ip_family(true, false, None);
    assert_eq!(r.order_by_infra(&servers, &zone, 0), vec![four]);

    let r = Recursor::new(vec![], 50 * MILLI).with_ip_family(false, true, None);
    assert_eq!(r.order_by_infra(&servers, &zone, 0), vec![six]);

    let r = Recursor::new(vec![], 50 * MILLI).with_ip_family(true, true, Some(true));
    assert_eq!(r.order_by_infra(&servers, &zone, 0).first(), Some(&six));
}

#[test]
fn infra_success_clears_fail_cooldown() {
    let mut r = Recursor::new(vec![], 100 * MILLI);
    let ip = v4(8, 8, 4, 4);
    let zone = name("example");
    r.infra_fail(ip, &zone, SECOND);
    assert!(infra_score(&r.infra, ip, &zone, SECOND) >= INFRA_FAIL_PENALTY_MS);

    r.infra_success(ip, &zone, 10 * MILLI);
    assert!(infra_score(&r.infra, ip, &zone, SECOND) < 100);
}

#[test]
fn failed_servers_are_excluded_until_cooldown_expires() {
    let mut r = Recursor::new(vec![], 100 * MILLI);
    let failed = at(v4(8, 8, 8, 8));
    let healthy = at(v4(1, 1, 1, 1));
    let zone = name("example");
    r.infra_fail(failed.ip, &zone, SECOND);
    assert_eq!(r.order_by_infra(&vec![failed, healthy], &zone, SECOND), vec![healthy]);

    let later = SECOND + INFRA_FAIL_COOLDOWN_NANOS + SECOND;
    let ordered = r.order_by_infra(&vec![failed, healthy], &zone, later);
    assert!(ordered.contains(&failed) && ordered.contains(&healthy));
}

#[test]
fn dns_protocol_error_does_not_open_transport_cooldown() {
    let mut recursor = Recursor::new(vec![], 100 * MILLI);
    let server = at(v4(8, 8, 8, 8));
    let zone = name("example");

    recursor.infra_protocol_error(server.ip, &zone, SECOND);
    assert_eq!(recursor.order_by_infra(&vec![server], &zone, SECOND), vec![server]);
}

#[test]
fn infra_failure_is_scoped_to_zone() {
    let mut recursor = Recursor::new(vec![], 100 * MILLI);
    let server = at(v4(8, 8, 8, 8));
    let failed_zone = name("example");
    let other_zone = name("net");

    let healthy = at(v4(1, 1, 1, 1));
    recursor.infra_fail(server.ip, &failed_zone, SECOND);

    assert_eq!(
        recursor.order_by_infra(&vec![server, healthy], &failed_zone, SECOND),
        vec![healthy]
    );

    let other = recursor.order_by_infra(&vec![server, healthy], &other_zone, SECOND);
    assert!(other.contains(&server) && other.contains(&healthy));
}

#[test]
fn recursion_policy_rejection_is_not_reported_as_transport_failure() {
    let recursor = Recursor::new(vec![], 10 * MILLI);
    let blocked = at(v4(127, 0, 0, 1));
    let query = make_query(&name("example"), TYPE_A, false);
    let begun = recursor.begin_exchange(
        &vec![blocked],
        &query,
        &Name::root(),
        recursor.query_deadline(0),
        0,
        &vec![[0; 32]],
    );
    assert!(matches!(begun, Err(RecurseError::NoReachableNs)));
}

#[test]
fn authority_exchange_obeys_the_shared_resolution_deadline() {
    let server = at(v4(127, 0, 0, 1));
    let mut recursor = Recursor::new(vec![], 2 * SECOND)
        .with_server_acl(vec![], vec![IpNet { addr: v4(127, 0, 0, 0), prefix: 8 }]);
    let query = make_query(&name("example"), TYPE_A, false);
    let mut exchange = match recursor.begin_exchange(
        &vec![server],
        &query,
        &Name::root(),
        80 * MILLI,
        0,
        &vec![[0; 32]],
    ) {
        Ok(x) => x,
        Err(_) => panic!("the server may be asked"),
    };
    // The end of the question comes before the share of the server.
    assert_eq!(
        recursor.next_attempt(&mut exchange, 0),
        Attempt::Send { server, timeout: 80 * MILLI }
    );
    assert!(recursor.on_reply(&mut exchange, server, None, 0, 80 * MILLI).is_none());
    assert_eq!(recursor.next_attempt(&mut exchange, 80 * MILLI), Attempt::Over);
    assert!(matches!(exchange.give_up(), Err(RecurseError::NoResponse)));
}

#[test]
fn with_dnssec_activates_validation() {
    let plain = Recursor::with_default_roots(SECOND);
    assert!(!plain.validating(false));
    let secure = Recursor::with_default_roots(SECOND).with_dnssec();
    assert!(secure.validating(false));
    assert!(!secure.validating(true));
    assert!(secure.is_validating());
    assert_eq!(secure.trust_anchors[0].key_tag, 20326);
}

#[test]
fn dnssec_strict_flag_plumbs() {
    let r = Recursor::with_default_roots(SECOND);
    assert!(!r.strict);
    let r = r.with_dnssec().with_dnssec_strict(true);
    assert!(r.strict && r.validating(false));
}

#[test]
fn caps_for_id_is_enabled_by_default_and_can_be_disabled() {
    assert!(Recursor::new(vec![], SECOND).caps_for_id);
    assert!(!Recursor::new(vec![], SECOND).with_caps_for_id(false).caps_for_id);
}

#[test]
fn with_recursion_limit_overrides_default() {
    let r = Recursor::with_default_roots(SECOND);
    assert_eq!(r.max_referrals, 16);
    let r = r.with_recursion_limit(4);
    assert_eq!(r.max_referrals, 4);

    let r = Recursor::with_default_roots(SECOND).with_recursion_limit(0);
    assert_eq!(r.max_referrals, 16);
}

#[test]
fn the_thirteen_roots_are_known() {
    let roots = default_roots();
    assert_eq!(roots.len(), 13);
    assert_eq!(roots[0], at(v4(198, 41, 0, 4)));
    assert_eq!(roots[12], at(v4(202, 12, 27, 33)));
    let anchors = root_trust_anchors();
    assert_eq!(anchors.len(), 2);
    assert_eq!(anchors[0].digest.len(), 32);
    assert_eq!(anchors[0].digest[0], 0xe0);
    assert_eq!(anchors[1].key_tag, 38696);
}

#[test]
fn builders_set_what_they_say() {
    let r = Recursor::new(vec![], SECOND)
        .with_port(5353)
        .with_cname_limit(3)
        .with_dname_limit(2)
        .with_ns_side_query_limit(5)
        .with_nsec3_max_iterations(10)
        .with_qname_min_strict(true)
        .with_harden_referral_path(true)
        .with_ignore_cd(true)
        .with_dnssec_permissive(true)
        .with_lowercase_outgoing(true)
        .with_root_key_sentinel(false);
    assert_eq!(r.port, 5353);
    assert_eq!(r.max_cnames, 3);
    assert_eq!(r.max_dnames, 2);
    assert_eq!(r.max_ns_resolves, 5);
    assert_eq!(r.nsec3_max_iterations, 10);
    assert!(r.qname_min_strict && r.harden_referral_path && r.permissive);
    assert!(r.lowercase_outgoing && !r.root_key_sentinel);
    assert!(!r.honors_cd(true));
    assert!(!Recursor::new(vec![], SECOND).honors_cd(true));
    assert!(Recursor::new(vec![], SECOND).with_ignore_cd(false).honors_cd(true));
}

#[test]
fn errors_have_texts_of_their_own() {
    let all = [
        RecurseError::NoRoots,
        RecurseError::NoResponse,
        RecurseError::TooManyReferrals,
        RecurseError::TooManyCnames,
        RecurseError::TooManyDnames,
        RecurseError::TooManyQueries,
        RecurseError::NoReachableNs,
        RecurseError::Bogus,
    ];
    for (i, a) in all.iter().enumerate() {
        for (j, b) in all.iter().enumerate() {
            assert_eq!(a.text() == b.text(), i == j);
        }
    }
    assert_eq!(RecurseError::NoRoots.text(), "루트 서버 정보가 없습니다");
}

#[test]
fn key_responses_are_remembered_for_as_long_as_they_hold() {
    let mut rec = Recursor::new(vec![], SECOND);
    let zone = name("example");
    let key = Dnskey { flags: 257, protocol: 3, algorithm: 13, public_key: vec![1] };
    let mut resp = Message::query(1, zone.clone(), TYPE_DNSKEY);
    resp.answers.push(Record::new(zone.clone(), 900, RData::Dnskey(key)));
    resp.answers.push(Record::new(
        zone.clone(),
        900,
        RData::Rrsig(rrsig(TYPE_DNSKEY, 1, NOW_SECS + 200, "example")),
    ));
    resp.answers.push(Record::new(name("other"), 1, RData::A(Ipv4Addr::new(192, 0, 2, 1))));
    let keys = rec.absorb_dnskey_response(&zone, &resp, NOW_SECS, NOW);
    assert_eq!(keys.records.len(), 1);
    assert_eq!(keys.signatures.len(), 1);
    // The signature ends before the records do.
    assert!(rec.dnskey_cached(&zone.canonical_key(), NOW + 199_000).is_some());
    assert!(rec.dnskey_cached(&zone.canonical_key(), NOW + 200_000).is_none());
}

#[test]
fn evidence_is_copied_whole() {
    let none = DsEvidence::none();
    assert!(none.ds.is_empty() && none.ds_records.is_empty());
    let m = Message::query(3, name("a.example"), TYPE_A);
    assert_eq!(m.replicate(), m);
}
