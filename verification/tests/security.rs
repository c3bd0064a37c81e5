use onetdns::acl::{AclDecision, IpAcl};
use onetdns::addr::{IpAddr, Ipv4Addr, Ipv6Addr};
use onetdns::bucket::{TokenBucket, CAP_PER_SHARD, SHARDS};
use onetdns::cookie::{CookieKeeper, SECRET_EPOCH_SECS, SERVER_COOKIE_LEN};
use onetdns::net::IpNet;
use onetdns::rate::{KeyedRateLimiter, RateDecision};
use onetdns::siphash::{SipHasher13, SipHasher24};
use onetdns::subnet::SubnetRateLimiter;
use onetdns::transport::{ClientInfo, Transport};

const SECOND: u64 = 1_000_000_000;

const NOW: u32 = 1_800_000_000;

fn v4(a: u8, b: u8, c: u8, d: u8) -> IpAddr {
    IpAddr::V4(Ipv4Addr::new(a, b, c, d))
}

fn net(addr: IpAddr, prefix: u8) -> IpNet {
    IpNet { addr, prefix }
}

fn client(ip: IpAddr) -> ClientInfo {
    ClientInfo {
        source_ip: ip,
        client_id: None,
        transport: Transport::Do53Udp,
        authenticated: false,
    }
}

fn client_id(ip: IpAddr, id: &str) -> ClientInfo {
    ClientInfo {
        source_ip: ip,
        client_id: Some(id.to_string()),
        transport: Transport::DoT,
        authenticated: true,
    }
}

#[test]
fn deny_unlisted_when_closed() {
    let acl = IpAcl::new(vec![net(v4(192, 168, 0, 0), 16)], vec![], false);
    assert_eq!(acl.check(&client(v4(192, 168, 1, 5))), AclDecision::Allow);
    assert_eq!(acl.check(&client(v4(8, 8, 8, 8))), AclDecision::Deny);
}

#[test]
fn deny_takes_precedence() {
    let acl = IpAcl::new(
        vec![net(v4(10, 0, 0, 0), 8)],
        vec![net(v4(10, 6, 6, 0), 24)],
        true,
    );
    assert_eq!(acl.check(&client(v4(10, 1, 2, 3))), AclDecision::Allow);
    assert_eq!(acl.check(&client(v4(10, 6, 6, 9))), AclDecision::Deny);
}

#[test]
fn default_allow_when_open() {
    let acl = IpAcl::allow_all();
    assert!(acl.is_trivially_allow());
    assert_eq!(acl.check(&client(v4(203, 0, 113, 1))), AclDecision::Allow);
}

#[test]
fn only_unconditional_acl_reports_trivial_allow() {
    assert!(!IpAcl::new(vec![], vec![], false).is_trivially_allow());
    assert!(IpAcl::new(vec![net(v4(192, 0, 2, 0), 24)], vec![], true).is_trivially_allow());
    assert!(!IpAcl::new(vec![], vec![net(v4(192, 0, 2, 0), 24)], true).is_trivially_allow());
}

#[test]
fn clientid_allow_and_deny() {
    let acl = IpAcl::new(vec![], vec![], false)
        .with_ids(vec!["vip".to_string()], vec!["banned".to_string()]);
    assert_eq!(acl.check(&client_id(v4(8, 8, 8, 8), "vip")), AclDecision::Allow);
    assert_eq!(acl.check(&client_id(v4(8, 8, 8, 8), "other")), AclDecision::Deny);

    let acl2 = IpAcl::new(vec![], vec![], true).with_ids(vec![], vec!["banned".to_string()]);
    assert_eq!(acl2.check(&client_id(v4(8, 8, 8, 8), "banned")), AclDecision::Deny);
}

#[test]
fn permits_then_throttles() {
    let mut tb: TokenBucket<IpAddr> = TokenBucket::new(1, 2).unwrap();
    let ip = v4(1, 2, 3, 4);
    assert!(tb.check(&ip, 7, 0));
    assert!(tb.check(&ip, 7, 0));
    assert!(!tb.check(&ip, 7, 0));

    assert!(tb.check(&v4(5, 6, 7, 8), 7, 0));
}

#[test]
fn bucket_disabled_when_zero() {
    assert!(TokenBucket::<IpAddr>::new(0, 0).is_none());
}

#[test]
fn unique_keys_remain_bounded() {
    let mut tb: TokenBucket<IpAddr> = TokenBucket::new(1, 1).unwrap();
    for i in 0..100_000u32 {
        if i as usize % SHARDS == 0 {
            let key = IpAddr::V4(Ipv4Addr { bits: i });
            assert!(tb.check(&key, u64::from(i), 0));
        }
    }
    assert_eq!(tb.remembered(0), CAP_PER_SHARD);
    assert_eq!(tb.remembered(1), 0);
}

#[test]
fn a_new_key_gets_its_burst_whatever_others_ask_for() {
    let mut tb: TokenBucket<IpAddr> = TokenBucket::new(2, 5).unwrap();
    let ip = v4(192, 0, 2, 1);
    for i in 0..5u8 {
        assert!(tb.check(&ip, 3, u64::from(i)));
        assert!(tb.check(&v4(198, 51, 100, i), 3, u64::from(i)));
    }
    assert!(!tb.check(&ip, 3, 5));
    // Two a second come back.
    assert!(tb.check(&ip, 3, SECOND / 2 + 5));
    assert!(!tb.check(&ip, 3, SECOND / 2 + 6));
}

#[test]
fn tokens_come_back_at_the_rate_and_no_faster() {
    let mut tb: TokenBucket<IpAddr> = TokenBucket::new(2, 3).unwrap();
    let ip = v4(192, 0, 2, 1);
    for _ in 0..3 {
        assert!(tb.check(&ip, 0, 10 * SECOND));
    }
    assert!(!tb.check(&ip, 0, 10 * SECOND));
    // Half a second gives one token at two a second, and not a moment before.
    assert!(!tb.check(&ip, 0, 10 * SECOND + SECOND / 2 - 1));
    assert!(tb.check(&ip, 0, 10 * SECOND + SECOND / 2));
    assert!(!tb.check(&ip, 0, 10 * SECOND + SECOND / 2));
    // A long rest gives back the burst, and no more.
    for _ in 0..3 {
        assert!(tb.check(&ip, 0, 1_000 * SECOND));
    }
    assert!(!tb.check(&ip, 0, 1_000 * SECOND));
}

#[test]
fn a_small_burst_is_raised_to_the_rate() {
    let mut tb: TokenBucket<IpAddr> = TokenBucket::new(3, 0).unwrap();
    let ip = v4(192, 0, 2, 1);
    for _ in 0..3 {
        assert!(tb.check(&ip, 0, 0));
    }
    assert!(!tb.check(&ip, 0, 0));
}

#[test]
fn throttles_after_burst() {
    let mut rl = KeyedRateLimiter::new(1, 2).unwrap();
    let c = client(v4(198, 51, 100, 7));
    assert_eq!(rl.check(&c, 1, 0), RateDecision::Permit);
    assert_eq!(rl.check(&c, 1, 0), RateDecision::Permit);

    assert_eq!(rl.check(&c, 1, 0), RateDecision::Throttle);

    assert_eq!(rl.check(&client(v4(198, 51, 100, 8)), 2, 0), RateDecision::Permit);
}

#[test]
fn rate_disabled_when_zero() {
    assert!(KeyedRateLimiter::new(0, 0).is_none());
}

#[test]
fn allowlist_bypasses_limit() {
    let mut rl = KeyedRateLimiter::new(1, 1)
        .unwrap()
        .with_allow(vec![net(v4(10, 0, 0, 0), 8)]);
    let c = client(v4(10, 1, 2, 3));

    for _ in 0..5 {
        assert_eq!(rl.check(&c, 1, 0), RateDecision::Permit);
    }
}

#[test]
fn same_subnet_shares_budget() {
    let mut rl = SubnetRateLimiter::new(1, 2, 24, 56).unwrap();

    assert_eq!(rl.check(&client(v4(203, 0, 113, 1)), 1, 0), RateDecision::Permit);
    assert_eq!(rl.check(&client(v4(203, 0, 113, 99)), 1, 0), RateDecision::Permit);
    assert_eq!(rl.check(&client(v4(203, 0, 113, 250)), 1, 0), RateDecision::Throttle);

    assert_eq!(rl.check(&client(v4(198, 51, 100, 1)), 2, 0), RateDecision::Permit);
}

#[test]
fn subnet_keys_are_the_network_addresses() {
    let rl = SubnetRateLimiter::new(1, 1, 24, 56).unwrap();
    assert_eq!(rl.key(v4(203, 0, 113, 99)), v4(203, 0, 113, 0));
    let a = IpAddr::V6(Ipv6Addr::from_segments([0x2001, 0xdb8, 1, 0x2ff, 5, 6, 7, 8]));
    let n = IpAddr::V6(Ipv6Addr::from_segments([0x2001, 0xdb8, 1, 0x200, 0, 0, 0, 0]));
    assert_eq!(rl.key(a), n);
    assert!(SubnetRateLimiter::new(0, 0, 24, 56).is_none());
}

#[test]
fn subnet_exceptions_are_not_limited() {
    let mut rl = SubnetRateLimiter::new(1, 1, 24, 56)
        .unwrap()
        .with_allow(vec![net(v4(10, 0, 0, 0), 8)]);
    for _ in 0..5 {
        assert_eq!(rl.check(&client(v4(10, 1, 2, 3)), 1, 0), RateDecision::Permit);
    }
}

#[test]
fn roundtrip_validates() {
    let keeper = CookieKeeper::from_secret(&[7u8; 16]);
    let ip = v4(203, 0, 113, 9);
    let client = [1u8, 2, 3, 4, 5, 6, 7, 8];

    let resp = keeper.response_cookie(&client, ip, NOW);
    let check = keeper.parse_and_validate(&resp, ip, NOW).unwrap();
    assert!(check.valid);
    assert_eq!(check.client, client);
}

#[test]
fn client_only_is_invalid() {
    let keeper = CookieKeeper::from_secret(&[9u8; 16]);
    let ip = v4(203, 0, 113, 9);
    let check = keeper.parse_and_validate(&[1, 2, 3, 4, 5, 6, 7, 8], ip, NOW).unwrap();
    assert!(!check.valid);
}

#[test]
fn wrong_ip_fails() {
    let keeper = CookieKeeper::from_secret(&[3u8; 16]);
    let client = [8u8, 7, 6, 5, 4, 3, 2, 1];
    let resp = keeper.response_cookie(&client, v4(10, 0, 0, 1), NOW);

    let check = keeper.parse_and_validate(&resp, v4(10, 0, 0, 2), NOW).unwrap();
    assert!(!check.valid);
}

#[test]
fn malformed_rejected() {
    let keeper = CookieKeeper::from_secret(&[0u8; 16]);
    let ip = v4(10, 0, 0, 1);
    assert!(keeper.parse_and_validate(&[1, 2, 3], ip, NOW).is_none());
}

#[test]
fn server_cookie_has_the_interoperable_layout() {
    let keeper = CookieKeeper::from_secret(&[5u8; 16]);
    let ip = v4(192, 0, 2, 7);
    let client = [1u8, 2, 3, 4, 5, 6, 7, 8];

    let cookie = keeper.server_cookie_at(&client, ip, 0x1234_5678);
    assert_eq!(cookie.len(), SERVER_COOKIE_LEN);
    assert_eq!(cookie[0], 1);
    assert_eq!(&cookie[1..4], &[0, 0, 0]);
    assert_eq!(&cookie[4..8], &0x1234_5678u32.to_be_bytes());

    let full = keeper.response_cookie(&client, ip, NOW);
    assert_eq!(full.len(), 8 + SERVER_COOKIE_LEN);
    assert_eq!(&full[..8], &client);
}

#[test]
fn server_cookie_matches_rfc9018_appendix_a1() {
    let secret = [
        0xe5, 0xe9, 0x73, 0xe5, 0xa6, 0xb2, 0xa4, 0x3f, 0x48, 0xe7, 0xdc, 0x84, 0x9e, 0x37, 0xbf,
        0xcf,
    ];
    let client = [0x24, 0x64, 0xc4, 0xab, 0xcf, 0x10, 0xc9, 0x57];
    let expected = [
        0x01, 0x00, 0x00, 0x00, 0x5c, 0xf7, 0x9f, 0x11, 0x1f, 0x81, 0x30, 0xc3, 0xee, 0xe2, 0x94,
        0x80,
    ];

    let cookie = CookieKeeper::from_secret(&secret).server_cookie_at(
        &client,
        v4(198, 51, 100, 100),
        1_559_731_985,
    );
    assert_eq!(cookie, expected);
}

#[test]
fn shared_master_secret_is_stable_across_nodes() {
    let client = [1u8, 3, 5, 7, 9, 11, 13, 15];
    let ip = IpAddr::V6(Ipv6Addr::from_segments([0x2001, 0xdb8, 0, 0, 0, 0, 0, 0x53]));
    let stamp = 1_800_000_000;
    let first = CookieKeeper::from_master_secret(&[0x11; 16]);
    let second = CookieKeeper::from_master_secret(&[0x11; 16]);
    let other = CookieKeeper::from_master_secret(&[0x22; 16]);

    assert_eq!(
        first.server_cookie_at(&client, ip, stamp),
        second.server_cookie_at(&client, ip, stamp)
    );
    assert_ne!(
        first.server_cookie_at(&client, ip, stamp),
        other.server_cookie_at(&client, ip, stamp)
    );
}

#[test]
fn rotating_secret_accepts_the_previous_epoch_at_the_boundary() {
    let keeper = CookieKeeper::from_master_secret(&[0x5a; 16]);
    let ip = v4(192, 0, 2, 53);
    let client = [2u8, 4, 6, 8, 10, 12, 14, 16];
    let boundary = SECRET_EPOCH_SECS * 700;
    let previous_stamp = boundary - 1;
    let current_stamp = boundary;
    let full = |stamp| {
        let mut cookie = client.to_vec();
        cookie.extend_from_slice(&keeper.server_cookie_at(&client, ip, stamp));
        cookie
    };

    assert_ne!(
        keeper.server_cookie_at(&client, ip, previous_stamp)[8..],
        keeper.server_cookie_at(&client, ip, current_stamp)[8..]
    );
    assert!(keeper.parse_and_validate(&full(previous_stamp), ip, boundary + 1).unwrap().valid);
    assert!(keeper.parse_and_validate(&full(current_stamp), ip, boundary + 1).unwrap().valid);
}

#[test]
fn cookie_outside_the_time_window_is_rejected() {
    let keeper = CookieKeeper::from_secret(&[6u8; 16]);
    let ip = v4(192, 0, 2, 9);
    let client = [9u8, 8, 7, 6, 5, 4, 3, 2];
    let now = NOW;

    let check = |stamp: u32| {
        let mut cookie = client.to_vec();
        cookie.extend_from_slice(&keeper.server_cookie_at(&client, ip, stamp));
        keeper.parse_and_validate(&cookie, ip, now).unwrap().valid
    };

    assert!(check(now));
    assert!(check(now - 3000));
    assert!(!check(now - 7200));
    assert!(!check(now + 3600));
    assert!(check(now + 60));
    // The edges of the window.
    assert!(check(now - 3600));
    assert!(!check(now - 3601));
    assert!(check(now + 300));
    assert!(!check(now + 301));

    let mut wrong_version = client.to_vec();
    let mut server = keeper.server_cookie_at(&client, ip, now);
    server[0] = 2;
    wrong_version.extend_from_slice(&server);
    assert!(!keeper.parse_and_validate(&wrong_version, ip, now).unwrap().valid);
}

#[test]
fn a_changed_octet_of_the_hash_is_noticed() {
    let keeper = CookieKeeper::from_secret(&[6u8; 16]);
    let ip = v4(192, 0, 2, 9);
    let client = [9u8, 8, 7, 6, 5, 4, 3, 2];
    for i in 16..24 {
        let mut cookie = keeper.response_cookie(&client, ip, NOW);
        cookie[i] ^= 0x40;
        assert!(!keeper.parse_and_validate(&cookie, ip, NOW).unwrap().valid);
    }
}

#[test]
fn erasing_overwrites_the_secrets() {
    let client = [1u8, 2, 3, 4, 5, 6, 7, 8];
    let ip = v4(192, 0, 2, 9);
    let zero = CookieKeeper::from_secret(&[0u8; 16]).server_cookie_at(&client, ip, NOW);

    // The keys of a fixed secret are wiped word by word.
    let mut fixed = CookieKeeper::from_secret(&[6u8; 16]);
    assert_ne!(fixed.server_cookie_at(&client, ip, NOW), zero);
    fixed.erase();
    assert_eq!(fixed.server_cookie_at(&client, ip, NOW), zero);

    // A drawn secret is wiped where it came from, and so is the master secret.
    let mut drawn = [0x5au8; 16];
    let mut random = CookieKeeper::random(&mut drawn);
    assert_eq!(drawn, [0u8; 16]);
    let erased = CookieKeeper::from_master_secret(&[0u8; 16]).server_cookie_at(&client, ip, NOW);
    assert_ne!(random.server_cookie_at(&client, ip, NOW), erased);
    random.erase();
    assert_eq!(random.server_cookie_at(&client, ip, NOW), erased);
}

fn hash(k0: u64, k1: u64, data: &[u8]) -> u64 {
    let mut h = SipHasher13::new_with_keys(k0, k1);
    h.write(data);
    h.finish()
}

#[test]
fn deterministic_and_keyed() {
    assert_eq!(hash(1, 2, b"hello"), hash(1, 2, b"hello"));

    assert_ne!(hash(1, 2, b"hello"), hash(3, 4, b"hello"));

    assert_ne!(hash(1, 2, b"hello"), hash(1, 2, b"hellp"));
}

#[test]
fn siphash24_matches_reference_vectors() {
    let k0 = u64::from_le_bytes([0, 1, 2, 3, 4, 5, 6, 7]);
    let k1 = u64::from_le_bytes([8, 9, 10, 11, 12, 13, 14, 15]);
    let run = |len: usize| {
        let input: Vec<u8> = (0..len as u8).collect();
        let mut h = SipHasher24::new_with_keys(k0, k1);
        h.write(&input);
        h.finish()
    };
    assert_eq!(run(0), 0x726f_db47_dd0e_0e31);
    assert_eq!(run(1), 0x74f8_39c5_93dc_67fd);
    assert_eq!(run(8), 0x93f5_f579_9a93_2462);
    assert_eq!(run(15), 0xa129_ca61_49be_45e5);

    let mut thirteen = SipHasher13::new_with_keys(k0, k1);
    thirteen.write(&[]);
    assert_ne!(thirteen.finish(), run(0));
}

#[test]
fn streaming_equals_oneshot() {
    let mut a = SipHasher13::new_with_keys(9, 9);
    a.write(b"abcdef");
    a.write(b"ghijklmno");
    let one = {
        let mut h = SipHasher13::new_with_keys(9, 9);
        h.write(b"abcdefghijklmno");
        h.finish()
    };
    assert_eq!(a.finish(), one);
}

#[test]
fn an_epoch_has_one_pair_of_keys() {
    let fixed = CookieKeeper::from_secret(&[7u8; 16]);
    assert_eq!(fixed.keys_at(0), (0x0707_0707_0707_0707, 0x0707_0707_0707_0707));
    assert_eq!(fixed.keys_at(0), fixed.keys_at(u32::MAX));

    let rotating = CookieKeeper::from_master_secret(&[7u8; 16]);
    let start = 3 * SECRET_EPOCH_SECS;
    let pair = rotating.keys_at(start);
    assert_eq!(rotating.keys_at(start + SECRET_EPOCH_SECS - 1), pair);
    assert_ne!(rotating.keys_at(start + SECRET_EPOCH_SECS), pair);
    let mut h = SipHasher24::new_with_keys(0x0707_0707_0707_0707, 0x0707_0707_0707_0707);
    h.write(b"OnetDNS DNS Cookie epoch key v1");
    h.write(&3u32.to_be_bytes());
    h.write(&[0]);
    assert_eq!(pair.0, h.finish());
}
