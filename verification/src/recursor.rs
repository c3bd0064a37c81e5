//! The resolver: its settings, the rules on which servers may be asked, and
//! what it remembers.

use vstd::prelude::*;

use crate::addr::{plain_addr, sort_distinct, sorted_distinct, IpAddr, Ipv4Addr, SocketAddr};
use crate::cache::{
    after_fetch, deepest_from, evicted, fetch, has_usable, lifetime_of, path_key, DelegationEntry,
    DelegationView, DnskeyEntry, DnskeyEntryView, NsAddrEntry, NsAddrView, TtlLifetime,
    ValidatedKeyEntry, ValidatedKeyView, ZoneTrust, ZoneTrustView,
};
use crate::chain::{
    cap_ttls, capped, copy_servers, extract_rrsigs, least_of_validity, least_validity_from,
    signature_at, signatures_in, ZoneKeys, ZoneKeysView,
};
use crate::infra::{
    cooling, infra_is_cooling, infra_score, least_by, note_failure, note_protocol_error,
    note_success, score_of, sort_stable, stable_sorted, stat_for, stat_of, InfraMap, InfraStat,
};
use crate::lru::{lookup, stored, LruMap};
use crate::message::{Ds, DsView, Message, MessageView, Record, RecordView, CLASS_IN, TYPE_DNSKEY};
use crate::name::{fold_case, same_name, within, Name};
use crate::net::{any_contains, covered, is_globally_routable, routable, IpNet};
use crate::response::{is_within, least_ttl, least_ttl_of, record_signs, signs};
use crate::seqs::{pick, replicate_all, views, Replicate};

verus! {

/// Why a name could not be resolved.
#[derive(Clone, Copy, PartialEq, Eq, Structural, Debug)]
pub enum RecurseError {
    /// There is no root server to start from.
    NoRoots,
    /// No server answered.
    NoResponse,
    /// Too many delegations were followed.
    TooManyReferrals,
    /// Too many CNAME steps.
    TooManyCnames,
    /// Too many DNAME steps.
    TooManyDnames,
    /// Too many queries for one question.
    TooManyQueries,
    /// Every server of a delegation is out of reach or not in charge.
    NoReachableNs,
    /// A signature or a proof is broken.
    Bogus,
}

impl RecurseError {
    /// What a person reads of it.
    pub open spec fn meaning(self) -> Seq<char> {
        match self {
            RecurseError::NoRoots => "루트 서버 정보가 없습니다"@,
            RecurseError::NoResponse => "질의한 서버에서 응답하지 않았습니다"@,
            RecurseError::TooManyReferrals => "도메인 위임을 너무 많이 따라갔습니다"@,
            RecurseError::TooManyQueries => "한 질의가 보내야 하는 업스트림 질의가 너무 많습니다"@,
            RecurseError::TooManyCnames => "CNAME 연결을 너무 많이 따라갔습니다"@,
            RecurseError::TooManyDnames => "DNAME 연결을 너무 많이 따라갔습니다"@,
            RecurseError::NoReachableNs => "도달할 수 있는 네임서버가 없습니다"@,
            RecurseError::Bogus => "DNSSEC 검증 결과가 올바르지 않습니다"@,
        }
    }

    /// What a person reads of it.
    pub fn text(&self) -> (r: &'static str)
        ensures
            r@ == self.meaning(),
    {
        match self {
            RecurseError::NoRoots => "루트 서버 정보가 없습니다",
            RecurseError::NoResponse => "질의한 서버에서 응답하지 않았습니다",
            RecurseError::TooManyReferrals => "도메인 위임을 너무 많이 따라갔습니다",
            RecurseError::TooManyQueries => "한 질의가 보내야 하는 업스트림 질의가 너무 많습니다",
            RecurseError::TooManyCnames => "CNAME 연결을 너무 많이 따라갔습니다",
            RecurseError::TooManyDnames => "DNAME 연결을 너무 많이 따라갔습니다",
            RecurseError::NoReachableNs => "도달할 수 있는 네임서버가 없습니다",
            RecurseError::Bogus => "DNSSEC 검증 결과가 올바르지 않습니다",
        }
    }
}

/// How many servers the score map remembers.
pub const MAX_INFRA: usize = 50_000;

/// The largest size that the caches can be set to.
pub const MAX_NS_CACHE_CONFIGURED: usize = 1_000_000;

pub const NS_ADDR_CACHE_MAX: usize = 4_096;

pub const DELEGATION_CACHE_MAX: usize = 4_096;

pub const DNSKEY_CACHE_MAX: usize = 4_096;

pub const VALIDATED_KEY_CACHE_MAX: usize = 4_096;

/// The most addresses that are kept for one name or zone.
pub const MAX_CACHED_NS_ADDRS: usize = 64;

/// The most rounds of hashing that any setting allows for hashed denial.
pub const MAX_NSEC3_ITERATIONS: u16 = 150;

/// The most queries that one question may cause.
pub const MAX_TOTAL_QUERIES: usize = 256;

/// What one question may still use up.
#[derive(Clone, Copy, PartialEq, Eq, Structural, Debug)]
pub struct Budget {
    /// Name servers that may still be looked up beside the point.
    pub ns_resolves: usize,
    /// Queries that may still go out. This number is never given back.
    pub queries: usize,
    /// The end of the time allowed, in nanoseconds.
    pub deadline: u64,
}

/// A resolver. Everything that it decides by stands in its fields.
pub struct Recursor {
    pub roots: Vec<SocketAddr>,
    /// The time allowed for one question, in nanoseconds.
    pub timeout: u64,
    pub port: u16,
    pub max_referrals: usize,
    pub max_cnames: usize,
    pub max_dnames: usize,
    pub max_ns_resolves: usize,
    pub trust_anchors: Vec<Ds>,
    /// Changes whenever the trust anchors do.
    pub anchor_generation: u64,
    pub strict: bool,
    pub permissive: bool,
    pub caps_for_id: bool,
    pub lowercase_outgoing: bool,
    pub ignore_cd: bool,
    pub deny_servers: Vec<IpNet>,
    pub allow_servers: Vec<IpNet>,
    pub do_ip4: bool,
    pub do_ip6: bool,
    pub prefer_ip6: bool,
    pub prefer_ip4: bool,
    pub qname_min_strict: bool,
    pub harden_referral_path: bool,
    pub domain_insecure: Vec<Name>,
    pub root_key_sentinel: bool,
    pub nsec3_max_iterations: u16,
    pub recursive_cache_ttl_max: u32,
    pub infra: InfraMap,
    pub ns_addr_cache: LruMap<Name, NsAddrEntry>,
    pub deleg_cache: LruMap<Name, DelegationEntry>,
    pub dnskey_cache: LruMap<Name, DnskeyEntry>,
    pub validated_keys: LruMap<Name, ValidatedKeyEntry>,
}

/// The addresses of the thirteen root servers.
pub open spec fn root_addresses() -> Seq<SocketAddr> {
    Seq::new(13, |i: int| plain_addr(IpAddr::V4(Ipv4Addr { bits: root_bits(i) }), 53))
}

pub open spec fn root_bits(i: int) -> u32 {
    if i == 0 {
        0xc629_0004
    } else if i == 1 {
        0xc709_0ec9
    } else if i == 2 {
        0xc021_040c
    } else if i == 3 {
        0xc707_5b0d
    } else if i == 4 {
        0xc0cb_e60a
    } else if i == 5 {
        0xc005_05f1
    } else if i == 6 {
        0xc070_2404
    } else if i == 7 {
        0xc661_be35
    } else if i == 8 {
        0xc024_9411
    } else if i == 9 {
        0xc03a_801e
    } else if i == 10 {
        0xc100_0e81
    } else if i == 11 {
        0xc707_532a
    } else {
        0xca0c_1b21
    }
}

fn root_server(a: u8, b: u8, c: u8, d: u8) -> (r: SocketAddr)
    ensures
        r == plain_addr(
            IpAddr::V4(Ipv4Addr { bits: crate::addr::v4_value(a, b, c, d) as u32 }),
            53,
        ),
{
    SocketAddr::new(IpAddr::V4(Ipv4Addr::new(a, b, c, d)), 53)
}

/// The digest of the root key of 2017.
pub open spec fn root_digest_of_2017() -> Seq<u8> {
    seq![
        0xe0, 0x6d, 0x44, 0xb8, 0x0b, 0x8f, 0x1d, 0x39,
        0xa9, 0x5c, 0x0b, 0x0d, 0x7c, 0x65, 0xd0, 0x84,
        0x58, 0xe8, 0x80, 0x40, 0x9b, 0xbc, 0x68, 0x34,
        0x57, 0x10, 0x42, 0x37, 0xc7, 0xf8, 0xec, 0x8d,
    ]
}

/// The digest of the root key of 2024.
pub open spec fn root_digest_of_2024() -> Seq<u8> {
    seq![
        0x68, 0x3d, 0x2d, 0x0a, 0xcb, 0x8c, 0x9b, 0x71,
        0x2a, 0x19, 0x48, 0xb2, 0x7f, 0x74, 0x12, 0x19,
        0x29, 0x8d, 0x0a, 0x45, 0x0d, 0x61, 0x2c, 0x48,
        0x3a, 0xf4, 0x44, 0xa4, 0xc0, 0xfb, 0x2b, 0x16,
    ]
}

/// A root key, signed with RSA over SHA-256 and digested with SHA-256.
pub open spec fn root_anchor(key_tag: u16, digest: Seq<u8>) -> DsView {
    DsView { key_tag, algorithm: 8, digest_type: 2, digest }
}

/// The published keys of the root.
pub fn root_trust_anchors() -> (r: Vec<Ds>)
    ensures
        views(r@) == seq![
            root_anchor(20326, root_digest_of_2017()),
            root_anchor(38696, root_digest_of_2024()),
        ],
{
    let first: Vec<u8> = vec![
        0xe0, 0x6d, 0x44, 0xb8, 0x0b, 0x8f, 0x1d, 0x39,
        0xa9, 0x5c, 0x0b, 0x0d, 0x7c, 0x65, 0xd0, 0x84,
        0x58, 0xe8, 0x80, 0x40, 0x9b, 0xbc, 0x68, 0x34,
        0x57, 0x10, 0x42, 0x37, 0xc7, 0xf8, 0xec, 0x8d,
    ];
    let second: Vec<u8> = vec![
        0x68, 0x3d, 0x2d, 0x0a, 0xcb, 0x8c, 0x9b, 0x71,
        0x2a, 0x19, 0x48, 0xb2, 0x7f, 0x74, 0x12, 0x19,
        0x29, 0x8d, 0x0a, 0x45, 0x0d, 0x61, 0x2c, 0x48,
        0x3a, 0xf4, 0x44, 0xa4, 0xc0, 0xfb, 0x2b, 0x16,
    ];
    assert(first@ =~= root_digest_of_2017());
    assert(second@ =~= root_digest_of_2024());
    let anchors: Vec<Ds> = vec![
        Ds { key_tag: 20326, algorithm: 8, digest_type: 2, digest: first },
        Ds { key_tag: 38696, algorithm: 8, digest_type: 2, digest: second },
    ];
    assert(views(anchors@) =~= seq![
        root_anchor(20326, root_digest_of_2017()),
        root_anchor(38696, root_digest_of_2024()),
    ]);
    anchors
}

/// The root servers known from the start.
pub fn default_roots() -> (r: Vec<SocketAddr>)
    ensures
        r@ == root_addresses(),
{
    let mut r: Vec<SocketAddr> = Vec::new();
    r.push(root_server(198, 41, 0, 4));
    r.push(root_server(199, 9, 14, 201));
    r.push(root_server(192, 33, 4, 12));
    r.push(root_server(199, 7, 91, 13));
    r.push(root_server(192, 203, 230, 10));
    r.push(root_server(192, 5, 5, 241));
    r.push(root_server(192, 112, 36, 4));
    r.push(root_server(198, 97, 190, 53));
    r.push(root_server(192, 36, 148, 17));
    r.push(root_server(192, 58, 128, 30));
    r.push(root_server(193, 0, 14, 129));
    r.push(root_server(199, 7, 83, 42));
    r.push(root_server(202, 12, 27, 33));
    assert(r@ =~= root_addresses());
    r
}

/// At most the first `n` items.
pub open spec fn first_n<T>(s: Seq<T>, n: int) -> Seq<T> {
    if s.len() <= n {
        s
    } else {
        s.take(n)
    }
}

/// Addresses as they are kept: sorted, each once, and no more than 64.
pub open spec fn kept_addrs<T: crate::addr::Ranked>(s: Seq<T>) -> Seq<T> {
    first_n(sorted_distinct(s), MAX_CACHED_NS_ADDRS as int)
}

pub(crate) fn keep_addrs<T: crate::addr::Ranked>(v: &Vec<T>) -> (r: Vec<T>)
    ensures
        r@ == kept_addrs(v@),
{
    let mut r = sort_distinct(v);
    if r.len() > MAX_CACHED_NS_ADDRS {
        r.truncate(MAX_CACHED_NS_ADDRS);
    }
    r
}

/// The earliest of the numbers.
pub open spec fn min_u32(a: u32, b: u32) -> u32 {
    if a <= b {
        a
    } else {
        b
    }
}

/// The record belongs to the keys of `zone`: a key, or a signature over keys.
pub open spec fn key_or_signature(zone: Seq<Seq<u8>>) -> spec_fn(RecordView) -> bool {
    |r: RecordView|
        r.class == CLASS_IN && same_name(r.name, zone) && (r.rtype == TYPE_DNSKEY || signs(
            r,
            TYPE_DNSKEY,
        ))
}

pub open spec fn key_at(zone: Seq<Seq<u8>>) -> spec_fn(RecordView) -> bool {
    |r: RecordView| r.class == CLASS_IN && r.rtype == TYPE_DNSKEY && same_name(r.name, zone)
}

/// The keys of `zone` in a response, and the signatures over them.
pub open spec fn keys_in(m: MessageView, zone: Seq<Seq<u8>>) -> ZoneKeysView {
    ZoneKeysView {
        records: m.answers.filter(key_at(zone)),
        signatures: signatures_in(m.answers.filter(signature_at(zone, TYPE_DNSKEY))),
    }
}

/// How long the keys of a response may be kept: until the first record or
/// signature among them runs out.
pub open spec fn keys_ttl(m: MessageView, zone: Seq<Seq<u8>>, now_secs: u32) -> u32 {
    least_of_validity(
        keys_in(m, zone).signatures,
        now_secs,
        match least_ttl(m.answers.filter(key_or_signature(zone))) {
            Some(t) => t,
            None => 0,
        },
    )
}

/// The number of the anchors that follow those with the number `n`.
pub open spec fn next_generation(n: u64) -> u64 {
    if n == u64::MAX {
        0
    } else {
        (n + 1) as u64
    }
}

impl Recursor {
    pub open spec fn family_ok(self, ip: IpAddr) -> bool {
        match ip {
            IpAddr::V4(_) => self.do_ip4,
            IpAddr::V6(_) => self.do_ip6,
        }
    }

    /// Allowed by name; else neither denied nor outside the public network.
    pub open spec fn queryable(self, ip: IpAddr) -> bool {
        covered(self.allow_servers@, ip) || (!covered(self.deny_servers@, ip) && routable(ip))
    }

    pub open spec fn eligible(self, ip: IpAddr) -> bool {
        self.family_ok(ip) && self.queryable(ip)
    }

    pub open spec fn rank_of(self, ip: IpAddr) -> int {
        if (self.prefer_ip6 && ip is V6) || (self.prefer_ip4 && ip is V4) {
            0
        } else {
            1
        }
    }

    /// The caches of both may hold equally much.
    pub open spec fn same_room(self, other: Recursor) -> bool {
        &&& self.infra.capacity() == other.infra.capacity()
        &&& self.ns_addr_cache.capacity() == other.ns_addr_cache.capacity()
        &&& self.deleg_cache.capacity() == other.deleg_cache.capacity()
        &&& self.dnskey_cache.capacity() == other.dnskey_cache.capacity()
        &&& self.validated_keys.capacity() == other.validated_keys.capacity()
    }

    /// As a resolver is made: everything but the roots and the time limit at its
    /// default, and nothing remembered.
    pub open spec fn at_defaults(self, roots: Seq<SocketAddr>, timeout: u64) -> bool {
        &&& self.roots@ == roots
        &&& self.timeout == timeout
        &&& self.port == 53
        &&& self.max_referrals == 16
        &&& self.max_cnames == 8
        &&& self.max_dnames == 8
        &&& self.max_ns_resolves == 64
        &&& self.trust_anchors@.len() == 0
        &&& self.anchor_generation == 0
        &&& !self.strict && !self.permissive && self.caps_for_id
        &&& !self.lowercase_outgoing && self.ignore_cd
        &&& self.deny_servers@.len() == 0 && self.allow_servers@.len() == 0
        &&& self.do_ip4 && self.do_ip6 && !self.prefer_ip6 && !self.prefer_ip4
        &&& !self.qname_min_strict && !self.harden_referral_path
        &&& self.domain_insecure@.len() == 0
        &&& self.root_key_sentinel
        &&& self.nsec3_max_iterations == MAX_NSEC3_ITERATIONS
        &&& self.recursive_cache_ttl_max == u32::MAX
        &&& self.infra@.len() == 0 && self.infra.capacity() == MAX_INFRA
        &&& self.ns_addr_cache@.len() == 0 && self.ns_addr_cache.capacity() == NS_ADDR_CACHE_MAX
        &&& self.deleg_cache@.len() == 0 && self.deleg_cache.capacity() == DELEGATION_CACHE_MAX
        &&& self.dnskey_cache@.len() == 0 && self.dnskey_cache.capacity() == DNSKEY_CACHE_MAX
        &&& self.validated_keys@.len() == 0
        &&& self.validated_keys.capacity() == VALIDATED_KEY_CACHE_MAX
    }

    /// A resolver with the given roots and time limit; everything else at its
    /// default.
    pub fn new(roots: Vec<SocketAddr>, timeout: u64) -> (r: Self)
        ensures
            r.at_defaults(roots@, timeout),
    {
        Recursor {
            roots,
            timeout,
            port: 53,
            max_referrals: 16,
            max_cnames: 8,
            max_dnames: 8,
            max_ns_resolves: 64,
            trust_anchors: Vec::new(),
            anchor_generation: 0,
            strict: false,
            permissive: false,
            caps_for_id: true,
            lowercase_outgoing: false,
            ignore_cd: true,
            deny_servers: Vec::new(),
            allow_servers: Vec::new(),
            do_ip4: true,
            do_ip6: true,
            prefer_ip6: false,
            prefer_ip4: false,
            qname_min_strict: false,
            harden_referral_path: false,
            domain_insecure: Vec::new(),
            root_key_sentinel: true,
            nsec3_max_iterations: MAX_NSEC3_ITERATIONS,
            recursive_cache_ttl_max: u32::MAX,
            infra: LruMap::new(MAX_INFRA),
            ns_addr_cache: LruMap::new(NS_ADDR_CACHE_MAX),
            deleg_cache: LruMap::new(DELEGATION_CACHE_MAX),
            dnskey_cache: LruMap::new(DNSKEY_CACHE_MAX),
            validated_keys: LruMap::new(VALIDATED_KEY_CACHE_MAX),
        }
    }

    /// A resolver that starts at the root servers known from the start.
    pub fn with_default_roots(timeout: u64) -> (r: Self)
        ensures
            r.at_defaults(root_addresses(), timeout),
    {
        Recursor::new(default_roots(), timeout)
    }

    /// Allows more or fewer rounds for hashed denial, never more than 150.
    pub fn with_nsec3_max_iterations(self, max: u16) -> (r: Self)
        ensures
            r == (Recursor {
                nsec3_max_iterations: if max <= MAX_NSEC3_ITERATIONS {
                    max
                } else {
                    MAX_NSEC3_ITERATIONS
                },
                ..self
            }),
    {
        let mut s = self;
        s.nsec3_max_iterations = if max <= MAX_NSEC3_ITERATIONS {
            max
        } else {
            MAX_NSEC3_ITERATIONS
        };
        s
    }

    /// Empties all caches and gives them a new size; zero leaves them alone.
    pub fn with_ns_cache_max(self, max: usize) -> (r: Self)
        ensures
            max == 0 ==> r == self,
            max > 0 ==> {
                let size = if max <= MAX_NS_CACHE_CONFIGURED {
                    max
                } else {
                    MAX_NS_CACHE_CONFIGURED
                };
                &&& r == (Recursor {
                    infra: r.infra,
                    ns_addr_cache: r.ns_addr_cache,
                    deleg_cache: r.deleg_cache,
                    dnskey_cache: r.dnskey_cache,
                    validated_keys: r.validated_keys,
                    ..self
                })
                &&& r.infra@.len() == 0 && r.infra.capacity() == size
                &&& r.ns_addr_cache@.len() == 0 && r.ns_addr_cache.capacity() == size
                &&& r.deleg_cache@.len() == 0 && r.deleg_cache.capacity() == size
                &&& r.dnskey_cache@.len() == 0 && r.dnskey_cache.capacity() == size
                &&& r.validated_keys@.len() == 0 && r.validated_keys.capacity() == size
            },
    {
        let mut s = self;
        if max > 0 {
            let size: usize = if max <= MAX_NS_CACHE_CONFIGURED {
                max
            } else {
                MAX_NS_CACHE_CONFIGURED
            };
            s.infra = LruMap::new(size);
            s.ns_addr_cache = LruMap::new(size);
            s.deleg_cache = LruMap::new(size);
            s.dnskey_cache = LruMap::new(size);
            s.validated_keys = LruMap::new(size);
        }
        s
    }

    pub fn with_recursive_cache_ttl_max(self, max: u32) -> (r: Self)
        ensures
            r == (Recursor { recursive_cache_ttl_max: max, ..self }),
    {
        let mut s = self;
        s.recursive_cache_ttl_max = max;
        s
    }

    /// Changes how many name servers may be looked up; zero is ignored.
    pub fn with_ns_side_query_limit(self, limit: usize) -> (r: Self)
        ensures
            r == (Recursor {
                max_ns_resolves: if limit > 0 {
                    limit
                } else {
                    self.max_ns_resolves
                },
                ..self
            }),
    {
        let mut s = self;
        if limit > 0 {
            s.max_ns_resolves = limit;
        }
        s
    }

    pub fn with_root_key_sentinel(self, on: bool) -> (r: Self)
        ensures
            r == (Recursor { root_key_sentinel: on, ..self }),
    {
        let mut s = self;
        s.root_key_sentinel = on;
        s
    }

    /// Chooses the address families, and the one to prefer: IPv6 for `true`.
    #[verifier::spinoff_prover]
    pub fn with_ip_family(self, do_ip4: bool, do_ip6: bool, prefer: Option<bool>) -> (r: Self)
        ensures
            r == (Recursor {
                do_ip4,
                do_ip6,
                prefer_ip6: self.prefer_ip6 || prefer == Some(true),
                prefer_ip4: self.prefer_ip4 || prefer == Some(false),
                ..self
            }),
    {
        let mut s = self;
        s.do_ip4 = do_ip4;
        s.do_ip6 = do_ip6;
        match prefer {
            Some(true) => {
                s.prefer_ip6 = true;
            },
            Some(false) => {
                s.prefer_ip4 = true;
            },
            None => {},
        }
        s
    }

    pub fn with_qname_min_strict(self, strict: bool) -> (r: Self)
        ensures
            r == (Recursor { qname_min_strict: strict, ..self }),
    {
        let mut s = self;
        s.qname_min_strict = strict;
        s
    }

    pub fn with_harden_referral_path(self, on: bool) -> (r: Self)
        ensures
            r == (Recursor { harden_referral_path: on, ..self }),
    {
        let mut s = self;
        s.harden_referral_path = on;
        s
    }

    pub fn with_domain_insecure(self, domains: Vec<Name>) -> (r: Self)
        ensures
            r == (Recursor { domain_insecure: domains, ..self }),
    {
        let mut s = self;
        s.domain_insecure = domains;
        s
    }

    pub fn with_port(self, port: u16) -> (r: Self)
        ensures
            r == (Recursor { port, ..self }),
    {
        let mut s = self;
        s.port = port;
        s
    }

    /// Replaces the trust anchors while the resolver is in use. Whatever was validated
    /// under the old ones is no longer used.
    #[verifier::spinoff_prover]
    pub fn set_trust_anchors(&mut self, anchors: Vec<Ds>)
        ensures
            *final(self) == (Recursor {
                trust_anchors: anchors,
                anchor_generation: next_generation(old(self).anchor_generation),
                ..*old(self)
            }),
    {
        let generation: u64 = self.anchor_generation;
        self.trust_anchors = anchors;
        self.anchor_generation = if generation == u64::MAX {
            0
        } else {
            generation + 1
        };
    }

    /// The same resolver with these trust anchors.
    pub fn with_trust_anchors(self, anchors: Vec<Ds>) -> (r: Self)
        ensures
            r == (Recursor {
                trust_anchors: anchors,
                anchor_generation: next_generation(self.anchor_generation),
                ..self
            }),
    {
        let mut s = self;
        s.set_trust_anchors(anchors);
        s
    }

    /// Validates from the published keys of the root.
    pub fn with_dnssec(self) -> (r: Self)
        ensures
            r == (Recursor {
                trust_anchors: r.trust_anchors,
                anchor_generation: next_generation(self.anchor_generation),
                ..self
            }),
            views(r.trust_anchors@) == seq![
                root_anchor(20326, root_digest_of_2017()),
                root_anchor(38696, root_digest_of_2024()),
            ],
    {
        self.with_trust_anchors(root_trust_anchors())
    }

    pub fn with_dnssec_strict(self, strict: bool) -> (r: Self)
        ensures
            r == (Recursor { strict, ..self }),
    {
        let mut s = self;
        s.strict = strict;
        s
    }

    pub fn with_dnssec_permissive(self, permissive: bool) -> (r: Self)
        ensures
            r == (Recursor { permissive, ..self }),
    {
        let mut s = self;
        s.permissive = permissive;
        s
    }

    pub fn with_caps_for_id(self, on: bool) -> (r: Self)
        ensures
            r == (Recursor { caps_for_id: on, ..self }),
    {
        let mut s = self;
        s.caps_for_id = on;
        s
    }

    pub fn with_lowercase_outgoing(self, on: bool) -> (r: Self)
        ensures
            r == (Recursor { lowercase_outgoing: on, ..self }),
    {
        let mut s = self;
        s.lowercase_outgoing = on;
        s
    }

    pub fn with_server_acl(self, deny: Vec<IpNet>, allow: Vec<IpNet>) -> (r: Self)
        ensures
            r == (Recursor { deny_servers: deny, allow_servers: allow, ..self }),
    {
        let mut s = self;
        s.deny_servers = deny;
        s.allow_servers = allow;
        s
    }

    /// Changes how many delegations may be followed; zero is ignored.
    pub fn with_recursion_limit(self, limit: u8) -> (r: Self)
        ensures
            r == (Recursor {
                max_referrals: if limit > 0 {
                    limit as usize
                } else {
                    self.max_referrals
                },
                ..self
            }),
    {
        let mut s = self;
        if limit > 0 {
            s.max_referrals = limit as usize;
        }
        s
    }

    /// Changes how many CNAME steps may be taken; zero is ignored.
    pub fn with_cname_limit(self, limit: u8) -> (r: Self)
        ensures
            r == (Recursor {
                max_cnames: if limit > 0 {
                    limit as usize
                } else {
                    self.max_cnames
                },
                ..self
            }),
    {
        let mut s = self;
        if limit > 0 {
            s.max_cnames = limit as usize;
        }
        s
    }

    /// Changes how many DNAME steps may be taken; zero is ignored.
    pub fn with_dname_limit(self, limit: u8) -> (r: Self)
        ensures
            r == (Recursor {
                max_dnames: if limit > 0 {
                    limit as usize
                } else {
                    self.max_dnames
                },
                ..self
            }),
    {
        let mut s = self;
        if limit > 0 {
            s.max_dnames = limit as usize;
        }
        s
    }

    pub fn with_ignore_cd(self, ignore: bool) -> (r: Self)
        ensures
            r == (Recursor { ignore_cd: ignore, ..self }),
    {
        let mut s = self;
        s.ignore_cd = ignore;
        s
    }

    /// Whether there are trust anchors to validate by.
    pub fn is_validating(&self) -> (r: bool)
        ensures
            r == (self.trust_anchors@.len() > 0),
    {
        self.trust_anchors.len() > 0
    }

    /// Whether this question is validated: there are trust anchors, and the
    /// client's wish for unchecked data is not being honoured.
    pub fn validating(&self, honor_cd: bool) -> (r: bool)
        ensures
            r == self.validates(honor_cd),
    {
        self.trust_anchors.len() > 0 && !honor_cd
    }

    pub open spec fn validates(self, honor_cd: bool) -> bool {
        self.trust_anchors@.len() > 0 && !honor_cd
    }

    /// Whether the client's wish for unchecked data is honoured.
    pub fn honors_cd(&self, cd: bool) -> (r: bool)
        ensures
            r == (cd && !self.ignore_cd),
    {
        cd && !self.ignore_cd
    }

    pub open spec fn deadline_from(self, now: u64) -> u64 {
        if now + self.timeout > u64::MAX {
            now
        } else {
            (now + self.timeout) as u64
        }
    }

    /// When the time for a question that starts now is over.
    pub fn query_deadline(&self, now: u64) -> (r: u64)
        ensures
            r == self.deadline_from(now),
    {
        match now.checked_add(self.timeout) {
            Some(t) => t,
            None => now,
        }
    }

    pub open spec fn fresh_budget(self, now: u64) -> Budget {
        Budget {
            ns_resolves: self.max_ns_resolves,
            queries: MAX_TOTAL_QUERIES,
            deadline: self.deadline_from(now),
        }
    }

    /// What a new question may use up.
    pub fn new_budget(&self, now: u64) -> (r: Budget)
        ensures
            r == self.fresh_budget(now),
    {
        Budget {
            ns_resolves: self.max_ns_resolves,
            queries: MAX_TOTAL_QUERIES,
            deadline: self.query_deadline(now),
        }
    }

    pub open spec fn insecure_by_choice(self, name: Seq<Seq<u8>>) -> bool {
        exists|i: int|
            0 <= i < self.domain_insecure@.len() && within(
                name,
                (#[trigger] self.domain_insecure@[i])@,
            )
    }

    /// Whether the name lies in a domain that is not to be validated.
    pub fn is_domain_insecure(&self, name: &Name) -> (r: bool)
        ensures
            r == self.insecure_by_choice(name@),
    {
        let mut i: usize = 0;
        while i < self.domain_insecure.len()
            invariant
                i <= self.domain_insecure.len(),
                forall|j: int| 0 <= j < i ==> !within(name@, (#[trigger] self.domain_insecure@[j])@),
            decreases self.domain_insecure.len() - i,
        {
            if is_within(name, &self.domain_insecure[i]) {
                assert(within(name@, self.domain_insecure@[i as int]@));
                return true;
            }
            i = i + 1;
        }
        false
    }

    pub fn family_allowed(&self, ip: IpAddr) -> (r: bool)
        ensures
            r == self.family_ok(ip),
    {
        match ip {
            IpAddr::V4(_) => self.do_ip4,
            IpAddr::V6(_) => self.do_ip6,
        }
    }

    /// 0 for the preferred family, else 1.
    pub fn family_rank(&self, ip: IpAddr) -> (r: u8)
        ensures
            r == self.rank_of(ip),
    {
        let is_v6: bool = ip.is_ipv6();
        if (self.prefer_ip6 && is_v6) || (self.prefer_ip4 && !is_v6) {
            0
        } else {
            1
        }
    }

    /// Whether the address may be asked. An allowed range goes first, then a
    /// denied one; of the rest only what the public network routes.
    pub fn is_queryable(&self, ip: IpAddr) -> (r: bool)
        ensures
            r == self.queryable(ip),
    {
        if any_contains(&self.allow_servers, &ip) {
            return true;
        }
        if any_contains(&self.deny_servers, &ip) {
            return false;
        }
        is_globally_routable(ip)
    }

    pub fn server_eligible(&self, ip: IpAddr) -> (r: bool)
        ensures
            r == self.eligible(ip),
    {
        self.family_allowed(ip) && self.is_queryable(ip)
    }

    // ---- name server addresses ----

    pub open spec fn cache_ttl(self, ttl: u32) -> u32 {
        min_u32(ttl, self.recursive_cache_ttl_max)
    }

    /// The addresses of the name server, and the seconds they may still be
    /// used. An entry that has run out is dropped.
    pub fn ns_addr_cached_with_ttl(&mut self, key: &Name, now_millis: u64) -> (r: Option<
        (Vec<IpAddr>, u32),
    >)
        ensures
            ({
                let live = has_usable::<Seq<Seq<u8>>, NsAddrEntry>(
                    old(self).ns_addr_cache@,
                    key@,
                    now_millis,
                    0,
                );
                &&& r is Some <==> live
                &&& r matches Some(f) ==> {
                    let e = lookup(old(self).ns_addr_cache@, key@)->0;
                    f.0@ == e.addrs && f.1 == e.lifetime.seconds_at(now_millis)
                }
                &&& final(self).ns_addr_cache@ == after_fetch(
                    old(self).ns_addr_cache@,
                    key@,
                    live,
                )
            }),
            final(self).ns_addr_cache.capacity() == old(self).ns_addr_cache.capacity(),
            *final(self) == (Recursor { ns_addr_cache: final(self).ns_addr_cache, ..*old(self) }),
    {
        let found: Option<(Vec<IpAddr>, u32)> = match self.ns_addr_cache.peek(key) {
            Some(e) => match e.lifetime.remaining_secs(now_millis) {
                Some(s) => {
                    let addrs = replicate_all(&e.addrs);
                    assert(views(addrs@) =~= addrs@);
                    assert(views(e.addrs@) =~= e.addrs@);
                    Some((addrs, s))
                },
                None => None,
            },
            None => None,
        };
        let _ = fetch(&mut self.ns_addr_cache, key, now_millis, 0);
        found
    }

    pub open spec fn ns_addrs_stored(
        self,
        key: Seq<Seq<u8>>,
        addrs: Seq<IpAddr>,
        ttl: u32,
        now_millis: u64,
    ) -> Seq<(Seq<Seq<u8>>, NsAddrView)> {
        if self.cache_ttl(ttl) == 0 {
            self.ns_addr_cache@
        } else {
            stored(
                self.ns_addr_cache@,
                self.ns_addr_cache.capacity(),
                key,
                NsAddrView {
                    addrs: kept_addrs(addrs),
                    lifetime: lifetime_of(self.cache_ttl(ttl), now_millis),
                },
            )
        }
    }

    /// Remembers the addresses of a name server, unless their time is zero.
    pub fn ns_addr_store(&mut self, key: Name, addrs: &Vec<IpAddr>, ttl_secs: u32, now_millis: u64)
        ensures
            final(self).ns_addr_cache@ == old(self).ns_addrs_stored(
                key@,
                addrs@,
                ttl_secs,
                now_millis,
            ),
            final(self).ns_addr_cache.capacity() == old(self).ns_addr_cache.capacity(),
            *final(self) == (Recursor { ns_addr_cache: final(self).ns_addr_cache, ..*old(self) }),
    {
        let ttl: u32 = if ttl_secs <= self.recursive_cache_ttl_max {
            ttl_secs
        } else {
            self.recursive_cache_ttl_max
        };
        if ttl == 0 {
            return ;
        }
        let entry = NsAddrEntry {
            addrs: keep_addrs(addrs),
            lifetime: TtlLifetime::new(ttl, now_millis),
        };
        self.ns_addr_cache.put(key, entry);
    }

    // ---- delegations ----

    /// The deepest zone on the way to `qname` whose servers are known, and
    /// those servers. Entries on the way that have run out are dropped.
    pub fn deepest_cached_delegation(&mut self, qname: &Name, now_millis: u64) -> (r: Option<
        (Name, Vec<SocketAddr>),
    >)
        ensures
            ({
                let found = deepest_from(
                    old(self).deleg_cache@,
                    qname@,
                    qname@.len() as int,
                    now_millis,
                );
                &&& final(self).deleg_cache@ == found.0
                &&& r is Some <==> found.1 is Some
                &&& r matches Some(d) ==> d.0@ == crate::name::last_labels(qname@, (found.1->0).0)
                    && d.1@ == (found.1->0).1
            }),
            final(self).deleg_cache.capacity() == old(self).deleg_cache.capacity(),
            *final(self) == (Recursor { deleg_cache: final(self).deleg_cache, ..*old(self) }),
    {
        let total: usize = qname.num_labels();
        let mut k: usize = total;
        while k > 0
            invariant
                k <= total,
                total == qname@.len(),
                *self == (Recursor { deleg_cache: self.deleg_cache, ..*old(self) }),
                self.deleg_cache.capacity() == old(self).deleg_cache.capacity(),
                deepest_from(old(self).deleg_cache@, qname@, total as int, now_millis)
                    == deepest_from(self.deleg_cache@, qname@, k as int, now_millis),
            decreases k,
        {
            let zone = qname.suffix(k);
            let key = zone.canonical_key();
            assert(key@ == path_key(qname@, k as int));
            let servers: Option<Vec<SocketAddr>> = match self.deleg_cache.peek(&key) {
                Some(e) => Some(copy_servers(&e.servers)),
                None => None,
            };
            let live: bool = fetch(&mut self.deleg_cache, &key, now_millis, 0);
            if live {
                match servers {
                    Some(s) => {
                        return Some((zone, s));
                    },
                    None => {},
                }
            }
            k = k - 1;
        }
        None
    }

    /// The servers of the zone, if they are known.
    pub fn deleg_cached(&mut self, zone: &Name, now_millis: u64) -> (r: Option<Vec<SocketAddr>>)
        ensures
            ({
                let key = fold_case(zone@);
                let live = has_usable::<Seq<Seq<u8>>, DelegationEntry>(
                    old(self).deleg_cache@,
                    key,
                    now_millis,
                    0,
                );
                &&& r is Some <==> live
                &&& r matches Some(s) ==> s@ == lookup(old(self).deleg_cache@, key)->0.servers
                &&& final(self).deleg_cache@ == after_fetch(old(self).deleg_cache@, key, live)
            }),
            *final(self) == (Recursor { deleg_cache: final(self).deleg_cache, ..*old(self) }),
            final(self).same_room(*old(self)),
    {
        let key = zone.canonical_key();
        let servers: Option<Vec<SocketAddr>> = match self.deleg_cache.peek(&key) {
            Some(e) => Some(copy_servers(&e.servers)),
            None => None,
        };
        if fetch(&mut self.deleg_cache, &key, now_millis, 0) {
            servers
        } else {
            None
        }
    }

    pub open spec fn delegation_stored(
        self,
        zone: Seq<Seq<u8>>,
        servers: Seq<SocketAddr>,
        ttl: u32,
        now_millis: u64,
    ) -> Seq<(Seq<Seq<u8>>, DelegationView)> {
        if servers.len() == 0 || self.cache_ttl(ttl) == 0 {
            self.deleg_cache@
        } else {
            stored(
                self.deleg_cache@,
                self.deleg_cache.capacity(),
                fold_case(zone),
                DelegationView {
                    servers: kept_addrs(servers),
                    lifetime: lifetime_of(self.cache_ttl(ttl), now_millis),
                },
            )
        }
    }

    /// Remembers the servers of a zone, unless there are none or their time is
    /// zero.
    pub fn deleg_store(
        &mut self,
        zone: &Name,
        servers: &Vec<SocketAddr>,
        ttl_secs: u32,
        now_millis: u64,
    )
        ensures
            final(self).deleg_cache@ == old(self).delegation_stored(
                zone@,
                servers@,
                ttl_secs,
                now_millis,
            ),
            final(self).deleg_cache.capacity() == old(self).deleg_cache.capacity(),
            *final(self) == (Recursor { deleg_cache: final(self).deleg_cache, ..*old(self) }),
    {
        if servers.len() == 0 {
            return ;
        }
        let ttl: u32 = if ttl_secs <= self.recursive_cache_ttl_max {
            ttl_secs
        } else {
            self.recursive_cache_ttl_max
        };
        if ttl == 0 {
            return ;
        }
        let entry = DelegationEntry {
            servers: keep_addrs(servers),
            lifetime: TtlLifetime::new(ttl, now_millis),
        };
        self.deleg_cache.put(zone.canonical_key(), entry);
    }

    /// Forgets every zone on the way to `qname`: one of them is out of date,
    /// and which one is not known.
    pub fn deleg_evict_path(&mut self, qname: &Name)
        ensures
            final(self).deleg_cache@ == evicted(
                old(self).deleg_cache@,
                qname@,
                qname@.len() as int,
            ),
            final(self).deleg_cache.capacity() == old(self).deleg_cache.capacity(),
            *final(self) == (Recursor { deleg_cache: final(self).deleg_cache, ..*old(self) }),
    {
        let total: usize = qname.num_labels();
        let mut k: usize = 0;
        while k < total
            invariant
                k <= total,
                total == qname@.len(),
                total <= 127,
                *self == (Recursor { deleg_cache: self.deleg_cache, ..*old(self) }),
                self.deleg_cache.capacity() == old(self).deleg_cache.capacity(),
                self.deleg_cache@ == evicted(old(self).deleg_cache@, qname@, k as int),
            decreases total - k,
        {
            let key = qname.suffix(k + 1).canonical_key();
            assert(key@ == path_key(qname@, k + 1));
            let _ = self.deleg_cache.pop(&key);
            k = k + 1;
        }
    }

    // ---- keys ----

    /// The keys of a zone as they were received, with lifetimes cut down to
    /// what remains.
    pub fn dnskey_cached(&mut self, key: &Name, now_millis: u64) -> (r: Option<ZoneKeys>)
        ensures
            ({
                let live = has_usable::<Seq<Seq<u8>>, DnskeyEntry>(
                    old(self).dnskey_cache@,
                    key@,
                    now_millis,
                    0,
                );
                &&& r is Some <==> live
                &&& r matches Some(k) ==> {
                    let e = lookup(old(self).dnskey_cache@, key@)->0;
                    k@ == ZoneKeysView {
                        records: capped(
                            e.keys.records,
                            Some(e.lifetime.seconds_at(now_millis) as u32),
                        ),
                        signatures: e.keys.signatures,
                    }
                }
                &&& final(self).dnskey_cache@ == after_fetch(old(self).dnskey_cache@, key@, live)
            }),
            final(self).dnskey_cache.capacity() == old(self).dnskey_cache.capacity(),
            *final(self) == (Recursor { dnskey_cache: final(self).dnskey_cache, ..*old(self) }),
    {
        let found: Option<ZoneKeys> = match self.dnskey_cache.peek(key) {
            Some(e) => match e.lifetime.remaining_secs(now_millis) {
                Some(s) => {
                    let mut records = replicate_all(&e.keys.records);
                    cap_ttls(&mut records, Some(s));
                    Some(ZoneKeys { records, signatures: replicate_all(&e.keys.signatures) })
                },
                None => None,
            },
            None => None,
        };
        let _ = fetch(&mut self.dnskey_cache, key, now_millis, 0);
        found
    }

    pub open spec fn keys_stored(
        self,
        key: Seq<Seq<u8>>,
        keys: ZoneKeysView,
        ttl: u32,
        now_millis: u64,
    ) -> Seq<(Seq<Seq<u8>>, DnskeyEntryView)> {
        if self.cache_ttl(ttl) == 0 {
            self.dnskey_cache@
        } else {
            stored(
                self.dnskey_cache@,
                self.dnskey_cache.capacity(),
                key,
                DnskeyEntryView { keys, lifetime: lifetime_of(self.cache_ttl(ttl), now_millis) },
            )
        }
    }

    /// Remembers the keys of a zone, unless their time is zero.
    pub fn dnskey_store(&mut self, key: Name, keys: ZoneKeys, ttl_secs: u32, now_millis: u64)
        ensures
            final(self).dnskey_cache@ == old(self).keys_stored(key@, keys@, ttl_secs, now_millis),
            final(self).dnskey_cache.capacity() == old(self).dnskey_cache.capacity(),
            *final(self) == (Recursor { dnskey_cache: final(self).dnskey_cache, ..*old(self) }),
    {
        let ttl: u32 = if ttl_secs <= self.recursive_cache_ttl_max {
            ttl_secs
        } else {
            self.recursive_cache_ttl_max
        };
        if ttl == 0 {
            return ;
        }
        self.dnskey_cache.put(
            key,
            DnskeyEntry { keys, lifetime: TtlLifetime::new(ttl, now_millis) },
        );
    }

    /// Takes the keys of `zone` and the signatures over them out of a
    /// response, and remembers them where both are there. They are kept no
    /// longer than the first of them lasts.
    pub fn absorb_dnskey_response(
        &mut self,
        zone: &Name,
        resp: &Message,
        now_secs: u32,
        now_millis: u64,
    ) -> (r: ZoneKeys)
        ensures
            r@ == keys_in(resp@, zone@),
            final(self).dnskey_cache@ == if r@.records.len() > 0 && r@.signatures.len() > 0 {
                old(self).keys_stored(
                    fold_case(zone@),
                    r@,
                    keys_ttl(resp@, zone@, now_secs),
                    now_millis,
                )
            } else {
                old(self).dnskey_cache@
            },
            final(self).dnskey_cache.capacity() == old(self).dnskey_cache.capacity(),
            *final(self) == (Recursor { dnskey_cache: final(self).dnskey_cache, ..*old(self) }),
    {
        let records = pick(
            &resp.answers,
            |r: &Record| -> (b: bool)
                ensures
                    b == key_at(zone@)(r@)
                { r.class == CLASS_IN && r.rtype == TYPE_DNSKEY && r.name.eq_ignore_case(zone) },
            Ghost(key_at(zone@)),
        );
        let signatures = extract_rrsigs(&resp.answers, TYPE_DNSKEY, zone);
        let all = pick(
            &resp.answers,
            |r: &Record| -> (b: bool)
                ensures
                    b == key_or_signature(zone@)(r@)
                {
                    r.class == CLASS_IN && r.name.eq_ignore_case(zone) && (r.rtype == TYPE_DNSKEY
                        || record_signs(r, TYPE_DNSKEY))
                },
            Ghost(key_or_signature(zone@)),
        );
        let keys = ZoneKeys { records, signatures };
        if keys.records.len() > 0 && keys.signatures.len() > 0 {
            let start: u32 = match least_ttl_of(&all) {
                Some(t) => t,
                None => 0,
            };
            let ttl: u32 = least_validity_from(&keys.signatures, now_secs, start);
            self.dnskey_store(zone.canonical_key(), keys.replicate(), ttl, now_millis);
        }
        keys
    }

    /// What is known of the zone under the present trust anchors. What was
    /// found out under others is dropped.
    pub fn validated_keys_cached(
        &mut self,
        zone_key: &Name,
        generation: u64,
        now_millis: u64,
    ) -> (r: Option<ZoneTrust>)
        ensures
            ({
                let live = has_usable::<Seq<Seq<u8>>, ValidatedKeyEntry>(
                    old(self).validated_keys@,
                    zone_key@,
                    now_millis,
                    generation,
                );
                &&& r is Some <==> live
                &&& r matches Some(t) ==> t@ == lookup(old(self).validated_keys@, zone_key@)->0.trust
                &&& final(self).validated_keys@ == after_fetch(
                    old(self).validated_keys@,
                    zone_key@,
                    live,
                )
            }),
            final(self).validated_keys.capacity() == old(self).validated_keys.capacity(),
            *final(self) == (Recursor { validated_keys: final(self).validated_keys, ..*old(self) }),
    {
        let trust: Option<ZoneTrust> = match self.validated_keys.peek(zone_key) {
            Some(e) => Some(e.trust.replicate()),
            None => None,
        };
        if fetch(&mut self.validated_keys, zone_key, now_millis, generation) {
            trust
        } else {
            None
        }
    }

    pub open spec fn trust_stored(
        self,
        key: Seq<Seq<u8>>,
        trust: ZoneTrustView,
        generation: u64,
        ttl: u32,
        now_millis: u64,
    ) -> Seq<(Seq<Seq<u8>>, ValidatedKeyView)> {
        if self.cache_ttl(ttl) == 0 {
            self.validated_keys@
        } else {
            stored(
                self.validated_keys@,
                self.validated_keys.capacity(),
                key,
                ValidatedKeyView {
                    trust,
                    generation,
                    lifetime: lifetime_of(self.cache_ttl(ttl), now_millis),
                },
            )
        }
    }

    /// Remembers what was found out about a zone, together with the trust
    /// anchors it rests on.
    pub fn validated_keys_store(
        &mut self,
        zone_key: Name,
        trust: ZoneTrust,
        generation: u64,
        ttl_secs: u32,
        now_millis: u64,
    )
        ensures
            final(self).validated_keys@ == old(self).trust_stored(
                zone_key@,
                trust@,
                generation,
                ttl_secs,
                now_millis,
            ),
            final(self).validated_keys.capacity() == old(self).validated_keys.capacity(),
            *final(self) == (Recursor { validated_keys: final(self).validated_keys, ..*old(self) }),
    {
        let ttl: u32 = if ttl_secs <= self.recursive_cache_ttl_max {
            ttl_secs
        } else {
            self.recursive_cache_ttl_max
        };
        if ttl == 0 {
            return ;
        }
        self.validated_keys.put(
            zone_key,
            ValidatedKeyEntry { trust, generation, lifetime: TtlLifetime::new(ttl, now_millis) },
        );
    }

    // ---- server scores ----

    pub fn infra_success(&mut self, ip: IpAddr, zone: &Name, rtt_nanos: u64)
        ensures
            final(self).infra@ == stored(
                old(self).infra@,
                old(self).infra.capacity(),
                (ip, fold_case(zone@)),
                crate::infra::stat_after_success(
                    stat_of(old(self).infra@, ip, zone@),
                    crate::infra::millis_of(rtt_nanos),
                ),
            ),
            final(self).infra.capacity() == old(self).infra.capacity(),
            *final(self) == (Recursor { infra: final(self).infra, ..*old(self) }),
    {
        note_success(&mut self.infra, ip, zone, rtt_nanos);
    }

    pub fn infra_protocol_error(&mut self, ip: IpAddr, zone: &Name, now: u64)
        ensures
            final(self).infra@ == stored(
                old(self).infra@,
                old(self).infra.capacity(),
                (ip, fold_case(zone@)),
                (InfraStat {
                    last_protocol_error: Some(now),
                    ..stat_of(old(self).infra@, ip, zone@)
                }),
            ),
            final(self).infra.capacity() == old(self).infra.capacity(),
            *final(self) == (Recursor { infra: final(self).infra, ..*old(self) }),
    {
        note_protocol_error(&mut self.infra, ip, zone, now);
    }

    pub fn infra_fail(&mut self, ip: IpAddr, zone: &Name, now: u64)
        ensures
            final(self).infra@ == stored(
                old(self).infra@,
                old(self).infra.capacity(),
                (ip, fold_case(zone@)),
                (InfraStat { last_fail: Some(now), ..stat_of(old(self).infra@, ip, zone@) }),
            ),
            final(self).infra.capacity() == old(self).infra.capacity(),
            *final(self) == (Recursor { infra: final(self).infra, ..*old(self) }),
    {
        note_failure(&mut self.infra, ip, zone, now);
    }

    pub open spec fn of_allowed_family(self) -> spec_fn(SocketAddr) -> bool {
        |s: SocketAddr| self.family_ok(s.ip)
    }

    pub open spec fn not_cooling(self, zone: Seq<Seq<u8>>, now: u64) -> spec_fn(SocketAddr) -> bool {
        |s: SocketAddr| !cooling(stat_of(self.infra@, s.ip, zone), now)
    }

    /// The preferred family first, then the better score.
    pub open spec fn order_key(self, zone: Seq<Seq<u8>>, now: u64) -> spec_fn(SocketAddr) -> int {
        |s: SocketAddr|
            self.rank_of(s.ip) * 0x1_0000_0000_0000_0000 + score_of(
                stat_of(self.infra@, s.ip, zone),
                now,
            )
    }

    /// When the server last failed; now, if it never did.
    pub open spec fn failure_key(self, zone: Seq<Seq<u8>>, now: u64) -> spec_fn(SocketAddr) -> int {
        |s: SocketAddr|
            match stat_of(self.infra@, s.ip, zone).last_fail {
                Some(t) => t as int,
                None => now as int,
            }
    }

    /// The servers in the order in which to ask them.
    pub open spec fn ordered(
        self,
        servers: Seq<SocketAddr>,
        zone: Seq<Seq<u8>>,
        now: u64,
    ) -> Seq<SocketAddr> {
        let allowed = servers.filter(self.of_allowed_family());
        let ready = allowed.filter(self.not_cooling(zone, now));
        let chosen = if ready.len() > 0 || allowed.len() == 0 {
            ready
        } else {
            seq![least_by(allowed, self.failure_key(zone, now))]
        };
        stable_sorted(chosen, self.order_key(zone, now))
    }

    fn first_failed(
        &self,
        allowed: &Vec<SocketAddr>,
        zone: &Name,
        now: u64,
    ) -> (r: SocketAddr)
        requires
            allowed.len() > 0,
        ensures
            r == least_by(allowed@, self.failure_key(zone@, now)),
    {
        let ghost key = self.failure_key(zone@, now);
        let mut best: SocketAddr = allowed[0];
        let mut best_at: u64 = match stat_for(&self.infra, best.ip, zone).last_fail {
            Some(t) => t,
            None => now,
        };
        let mut i: usize = 1;
        while i < allowed.len()
            invariant
                1 <= i <= allowed.len(),
                key == self.failure_key(zone@, now),
                best == least_by(allowed@.take(i as int), key),
                best_at == key(best),
            decreases allowed.len() - i,
        {
            let s: SocketAddr = allowed[i];
            let at: u64 = match stat_for(&self.infra, s.ip, zone).last_fail {
                Some(t) => t,
                None => now,
            };
            proof {
                let next = allowed@.take(i + 1);
                assert(next.drop_last() =~= allowed@.take(i as int));
                assert(next.last() == s);
            }
            if at < best_at {
                best = s;
                best_at = at;
            }
            i = i + 1;
        }
        assert(allowed@.take(allowed@.len() as int) =~= allowed@);
        best
    }

    /// The servers in the order in which to ask them: by family and score.
    /// Those that failed a short while ago are left out, unless that leaves
    /// nothing: then the one that failed longest ago is asked.
    pub fn order_by_infra(&self, servers: &Vec<SocketAddr>, zone: &Name, now: u64) -> (r: Vec<
        SocketAddr,
    >)
        ensures
            r@ == self.ordered(servers@, zone@, now),
    {
        let allowed = pick(
            servers,
            |s: &SocketAddr| -> (b: bool)
                ensures
                    b == self.of_allowed_family()(s@)
                { self.family_allowed(s.ip) },
            Ghost(self.of_allowed_family()),
        );
        assert(views(servers@) =~= servers@);
        assert(views(allowed@) =~= allowed@);
        let mut chosen = pick(
            &allowed,
            |s: &SocketAddr| -> (b: bool)
                ensures
                    b == self.not_cooling(zone@, now)(s@)
                { !infra_is_cooling(&self.infra, s.ip, zone, now) },
            Ghost(self.not_cooling(zone@, now)),
        );
        assert(views(chosen@) =~= chosen@);
        if chosen.len() == 0 && allowed.len() > 0 {
            let s: SocketAddr = self.first_failed(&allowed, zone, now);
            chosen = Vec::new();
            chosen.push(s);
            assert(chosen@ =~= seq![s]);
        }
        let ghost key = self.order_key(zone@, now);
        let mut keys: Vec<u128> = Vec::new();
        let mut i: usize = 0;
        while i < chosen.len()
            invariant
                i <= chosen.len(),
                keys.len() == i,
                key == self.order_key(zone@, now),
                forall|j: int| 0 <= j < i ==> #[trigger] keys@[j] == key(chosen@[j]),
            decreases chosen.len() - i,
        {
            let s: SocketAddr = chosen[i];
            let rank: u128 = self.family_rank(s.ip) as u128;
            let score: u128 = infra_score(&self.infra, s.ip, zone, now) as u128;
            keys.push(rank * 0x1_0000_0000_0000_0000 + score);
            i = i + 1;
        }
        sort_stable(&chosen, &keys, Ghost(key))
    }
}

/// Without a list of exceptions no address inside a network of its own is ever asked:
/// a delegation cannot be used to reach one.
pub proof fn law_internal_servers_are_not_asked(r: Recursor, ip: IpAddr)
    requires
        r.allow_servers@.len() == 0,
    ensures
        r.queryable(ip) ==> routable(ip),
        r.eligible(ip) ==> routable(ip),
{
}

/// Which servers may be asked: those of a family that is switched on, and of these the
/// ones that a prefix of the allow list covers, or that the public network routes and no
/// prefix of the deny list covers.
pub proof fn law_which_servers_may_be_asked(r: Recursor, ip: IpAddr, k: int)
    ensures
        r.eligible(ip) ==> (ip is V4 ==> r.do_ip4) && (ip is V6 ==> r.do_ip6),
        (ip is V4 ==> r.do_ip4) && (ip is V6 ==> r.do_ip6) && 0 <= k < r.allow_servers@.len()
            && r.allow_servers@[k].covers(ip) ==> r.eligible(ip),
        (ip is V4 ==> r.do_ip4) && (ip is V6 ==> r.do_ip6) && routable(ip) && (forall|i: int|
            0 <= i < r.deny_servers@.len() ==> !(#[trigger] r.deny_servers@[i]).covers(ip))
            ==> r.eligible(ip),
        r.eligible(ip) && (forall|i: int|
            0 <= i < r.allow_servers@.len() ==> !(#[trigger] r.allow_servers@[i]).covers(ip))
            ==> routable(ip) && forall|i: int|
            0 <= i < r.deny_servers@.len() ==> !(#[trigger] r.deny_servers@[i]).covers(ip),
{
    if 0 <= k < r.allow_servers@.len() && r.allow_servers@[k].covers(ip) {
        assert(covered(r.allow_servers@, ip));
    }
}

/// Of many addresses the first 64 in ascending order are kept, each once; of fewer all.
pub proof fn law_which_addresses_are_kept(s: Seq<SocketAddr>, a: SocketAddr)
    ensures
        kept_addrs(s).len() <= 64,
        kept_addrs(s).contains(a) ==> s.contains(a),
        s.len() <= 64 && s.contains(a) ==> kept_addrs(s).contains(a),
        s.len() > 0 ==> kept_addrs(s).len() > 0,
{
    crate::addr::lemma_sorted_distinct(s);
    let all = sorted_distinct(s);
    let kept = kept_addrs(s);
    if kept.contains(a) {
        let i = choose|i: int| 0 <= i < kept.len() && kept[i] == a;
        assert(all[i] == a);
        assert(all.contains(a));
    }
}

/// A question has until its timeout is over, and as many queries and side searches as are
/// allowed.
pub proof fn law_what_a_question_may_spend(r: Recursor, now: u64)
    ensures
        r.fresh_budget(now).queries == 256,
        r.fresh_budget(now).ns_resolves == r.max_ns_resolves,
        now + r.timeout <= u64::MAX ==> r.fresh_budget(now).deadline == now + r.timeout,
{
}

/// Validation takes place exactly where there are anchors and the client does not do
/// without.
pub proof fn law_when_answers_are_validated(r: Recursor)
    ensures
        r.validates(true) == false,
        r.validates(false) <==> r.trust_anchors@.len() != 0,
{
}

/// What is kept of the keys of a zone: all key records at its name, and the signatures
/// over them.
pub proof fn law_which_keys_are_taken(
    m: MessageView,
    zone: Seq<Seq<u8>>,
    x: RecordView,
    s: crate::message::RrsigView,
)
    ensures
        keys_in(m, zone).records.contains(x) <==> m.answers.contains(x) && x.class == 1 && x.rtype
            == 48 && same_name(x.name, zone),
        keys_in(m, zone).signatures.contains(s) <==> crate::chain::signed_in(
            m.answers,
            zone,
            48,
            s,
        ),
{
    crate::seqs::lemma_filter_members(m.answers, key_at(zone), x);
    crate::chain::law_signatures_are_found(m.answers, zone, TYPE_DNSKEY, s);
}

/// Keys are kept no longer than any of their records, any record of a signature over them,
/// and any of these signatures holds.
pub proof fn law_keys_are_kept_no_longer_than_they_hold(
    m: MessageView,
    zone: Seq<Seq<u8>>,
    now_secs: u32,
    x: RecordView,
    s: crate::message::RrsigView,
)
    ensures
        m.answers.contains(x) && x.class == 1 && same_name(x.name, zone) && (x.rtype == 48
            || x.rtype == 46 && x.rdata is Rrsig && x.rdata->Rrsig_0.type_covered == 48)
            ==> keys_ttl(m, zone, now_secs) <= x.ttl,
        crate::chain::signed_in(m.answers, zone, 48, s) ==> keys_ttl(m, zone, now_secs)
            <= crate::chain::seconds_left(s.expiration, now_secs),
{
    let p = key_or_signature(zone);
    let found = m.answers.filter(p);
    crate::seqs::lemma_filter_members(m.answers, p, x);
    crate::response::lemma_least_ttl(found);
    let start = match least_ttl(found) {
        Some(t) => t,
        None => 0,
    };
    let sigs = keys_in(m, zone).signatures;
    crate::chain::lemma_least_of_validity_bound(sigs, now_secs, start);
    if found.contains(x) {
        let i = choose|i: int| 0 <= i < found.len() && found[i] == x;
        assert(found[i].ttl >= start);
    }
    crate::chain::law_signatures_are_found(m.answers, zone, TYPE_DNSKEY, s);
    if sigs.contains(s) {
        let i = choose|i: int| 0 <= i < sigs.len() && sigs[i] == s;
        assert(sigs[i].expiration == s.expiration);
    }
}

/// The order in which servers are asked holds only servers that are there and of a family
/// that is switched on; all that did not just fail are there, and where all did, exactly
/// one is, of those that failed first. A preferred family comes first, then the better
/// score.
pub proof fn law_the_order_of_servers(
    r: Recursor,
    servers: Seq<SocketAddr>,
    zone: Seq<Seq<u8>>,
    now: u64,
    a: SocketAddr,
    i: int,
    j: int,
)
    ensures
        ({
            let out = r.ordered(servers, zone, now);
            let on = (a.ip is V4 ==> r.do_ip4) && (a.ip is V6 ==> r.do_ip6);
            &&& out.contains(a) ==> servers.contains(a) && on
            &&& servers.contains(a) && on && !cooling(stat_of(r.infra@, a.ip, zone), now)
                ==> out.contains(a)
            &&& servers.contains(a) && on ==> out.len() > 0
            &&& out.contains(a) && cooling(stat_of(r.infra@, a.ip, zone), now) ==> out.len() == 1
            &&& 0 <= i < j < out.len() ==> {
                let x = out[i];
                let y = out[j];
                let first = |s: SocketAddr| (r.prefer_ip6 && s.ip is V6) || (r.prefer_ip4 && s.ip is V4);
                &&& first(y) ==> first(x)
                &&& first(x) == first(y) ==> score_of(stat_of(r.infra@, x.ip, zone), now)
                    <= score_of(stat_of(r.infra@, y.ip, zone), now)
            }
        }),
{
    let allowed = servers.filter(r.of_allowed_family());
    let ready = allowed.filter(r.not_cooling(zone, now));
    let key = r.order_key(zone, now);
    let chosen = if ready.len() > 0 || allowed.len() == 0 {
        ready
    } else {
        seq![least_by(allowed, r.failure_key(zone, now))]
    };
    let out = r.ordered(servers, zone, now);
    crate::seqs::lemma_filter_members(servers, r.of_allowed_family(), a);
    crate::seqs::lemma_filter_members(allowed, r.not_cooling(zone, now), a);
    crate::infra::law_order_is_a_sorted_rearrangement(chosen, key);
    lemma_same_members(out, chosen, a);
    if allowed.len() > 0 {
        crate::infra::law_the_least_is_chosen(allowed, r.failure_key(zone, now));
    }
    if allowed.contains(a) {
        let k = choose|k: int| 0 <= k < allowed.len() && allowed[k] == a;
    }
    if ready.len() == 0 && allowed.len() > 0 {
        let l = least_by(allowed, r.failure_key(zone, now));
        assert(chosen =~= seq![l]);
        assert(chosen.contains(a) ==> a == l);
    }
    if 0 <= i < j < out.len() {
        assert(key(out[i]) <= key(out[j]));
    }
}

proof fn lemma_same_members(a: Seq<SocketAddr>, b: Seq<SocketAddr>, x: SocketAddr)
    requires
        a.to_multiset() == b.to_multiset(),
    ensures
        a.contains(x) <==> b.contains(x),
{
    a.to_multiset_ensures();
    b.to_multiset_ensures();
    assert(a.contains(x) <==> a.to_multiset().count(x) > 0);
    assert(b.contains(x) <==> b.to_multiset().count(x) > 0);
}

/// What is remembered of a zone is found again under its name in any letter case, for as
/// long as it was given, cut to the longest that anything is kept; with no time to keep
/// it, nothing is remembered.
pub proof fn law_what_is_remembered_is_found(
    r: Recursor,
    zone: Seq<Seq<u8>>,
    servers: Seq<SocketAddr>,
    addrs: Seq<IpAddr>,
    keys: ZoneKeysView,
    trust: crate::cache::ZoneTrustView,
    ttl: u32,
    now: u64,
)
    requires
        crate::lru::keys_distinct(r.deleg_cache@),
        r.deleg_cache@.len() <= r.deleg_cache.capacity(),
        r.deleg_cache.capacity() >= 1,
        crate::lru::keys_distinct(r.ns_addr_cache@),
        r.ns_addr_cache@.len() <= r.ns_addr_cache.capacity(),
        r.ns_addr_cache.capacity() >= 1,
        crate::lru::keys_distinct(r.dnskey_cache@),
        r.dnskey_cache@.len() <= r.dnskey_cache.capacity(),
        r.dnskey_cache.capacity() >= 1,
        crate::lru::keys_distinct(r.validated_keys@),
        r.validated_keys@.len() <= r.validated_keys.capacity(),
        r.validated_keys.capacity() >= 1,
    ensures
        ({
            let held = if ttl < r.recursive_cache_ttl_max {
                ttl
            } else {
                r.recursive_cache_ttl_max
            };
            let key = fold_case(zone);
            &&& held == 0 ==> {
                &&& r.delegation_stored(zone, servers, ttl, now) == r.deleg_cache@
                &&& r.ns_addrs_stored(key, addrs, ttl, now) == r.ns_addr_cache@
                &&& r.keys_stored(key, keys, ttl, now) == r.dnskey_cache@
                &&& r.trust_stored(key, trust, r.anchor_generation, ttl, now) == r.validated_keys@
            }
            &&& held > 0 ==> {
                &&& servers.len() > 0 ==> (lookup(
                    r.delegation_stored(zone, servers, ttl, now),
                    key,
                ) matches Some(e) && e.servers == kept_addrs(servers) && e.lifetime == lifetime_of(
                    held,
                    now,
                ))
                &&& lookup(r.ns_addrs_stored(key, addrs, ttl, now), key) matches Some(e) && e.addrs
                    == kept_addrs(addrs) && e.lifetime == lifetime_of(held, now)
                &&& lookup(r.keys_stored(key, keys, ttl, now), key) matches Some(e) && e.keys
                    == keys && e.lifetime == lifetime_of(held, now)
                &&& lookup(
                    r.trust_stored(key, trust, r.anchor_generation, ttl, now),
                    key,
                ) matches Some(e) && e.trust == trust && e.generation == r.anchor_generation
                    && e.lifetime == lifetime_of(held, now)
            }
            &&& servers.len() == 0 ==> r.delegation_stored(zone, servers, ttl, now)
                == r.deleg_cache@
        }),
{
    let key = fold_case(zone);
    let held = r.cache_ttl(ttl);
    let lifetime = lifetime_of(held, now);
    crate::lru::law_store_then_find(
        r.deleg_cache@,
        r.deleg_cache.capacity(),
        key,
        crate::cache::DelegationView { servers: kept_addrs(servers), lifetime },
    );
    crate::lru::law_store_then_find(
        r.ns_addr_cache@,
        r.ns_addr_cache.capacity(),
        key,
        crate::cache::NsAddrView { addrs: kept_addrs(addrs), lifetime },
    );
    crate::lru::law_store_then_find(
        r.dnskey_cache@,
        r.dnskey_cache.capacity(),
        key,
        crate::cache::DnskeyEntryView { keys, lifetime },
    );
    crate::lru::law_store_then_find(
        r.validated_keys@,
        r.validated_keys.capacity(),
        key,
        crate::cache::ValidatedKeyView { trust, generation: r.anchor_generation, lifetime },
    );
}

/// New anchors are told apart from all that were there a round of the counter before.
pub proof fn law_each_set_of_anchors_has_its_number(n: u64)
    ensures
        next_generation(n) != n,
        n < u64::MAX ==> next_generation(n) == n + 1,
{
}

/// The root servers, from a to m, by the numbers that their addresses are written with, each
/// at port 53.
pub proof fn law_where_the_root_servers_are(i: int)
    requires
        0 <= i < 13,
    ensures
        root_addresses().len() == 13,
        ({
            let a = root_addresses()[i];
            let at = |n: int, b: int, c: int, d: int, e: int|
                i == n ==> a.ip == IpAddr::V4(
                    Ipv4Addr { bits: (b * 0x100_0000 + c * 0x1_0000 + d * 0x100 + e) as u32 },
                );
            &&& a.port == 53
            &&& at(0, 198, 41, 0, 4)
            &&& at(1, 199, 9, 14, 201)
            &&& at(2, 192, 33, 4, 12)
            &&& at(3, 199, 7, 91, 13)
            &&& at(4, 192, 203, 230, 10)
            &&& at(5, 192, 5, 5, 241)
            &&& at(6, 192, 112, 36, 4)
            &&& at(7, 198, 97, 190, 53)
            &&& at(8, 192, 36, 148, 17)
            &&& at(9, 192, 58, 128, 30)
            &&& at(10, 193, 0, 14, 129)
            &&& at(11, 199, 7, 83, 42)
            &&& at(12, 202, 12, 27, 33)
        }),
{
}

/// The digests of the root keys are 32 octets of SHA-256 over a key of RSA with SHA-256;
/// they are told apart by their tags and by their first octets.
pub proof fn law_what_a_root_key_is_known_by(tag: u16, digest: Seq<u8>)
    ensures
        root_anchor(tag, digest).key_tag == tag,
        root_anchor(tag, digest).algorithm == 8,
        root_anchor(tag, digest).digest_type == 2,
        root_anchor(tag, digest).digest == digest,
        root_digest_of_2017().len() == 32,
        root_digest_of_2024().len() == 32,
        root_digest_of_2017()[0] != root_digest_of_2024()[0],
{
}

/// A resolver that was just made remembers nothing and trusts no key, tests servers by
/// letter case, asks over both families at port 53, follows 16 referrals and 8 aliases of
/// each kind, and refuses no zone.
pub proof fn law_what_a_resolver_starts_with(r: Recursor, roots: Seq<SocketAddr>, timeout: u64)
    requires
        r.at_defaults(roots, timeout),
    ensures
        r.roots@ == roots && r.timeout == timeout && r.port == 53,
        r.max_referrals == 16 && r.max_cnames == 8 && r.max_dnames == 8,
        r.max_ns_resolves == 64,
        r.trust_anchors@.len() == 0 && r.anchor_generation == 0,
        !r.strict && !r.permissive && r.caps_for_id,
        !r.lowercase_outgoing && r.ignore_cd,
        r.deny_servers@.len() == 0 && r.allow_servers@.len() == 0,
        r.do_ip4 && r.do_ip6 && !r.prefer_ip6 && !r.prefer_ip4,
        !r.qname_min_strict && !r.harden_referral_path,
        r.domain_insecure@.len() == 0 && r.root_key_sentinel,
        r.nsec3_max_iterations == 150,
        r.recursive_cache_ttl_max == 0xffff_ffff,
        r.infra@.len() == 0 && r.infra.capacity() == 50_000,
        r.ns_addr_cache@.len() == 0 && r.ns_addr_cache.capacity() == 4_096,
        r.deleg_cache@.len() == 0 && r.deleg_cache.capacity() == 4_096,
        r.dnskey_cache@.len() == 0 && r.dnskey_cache.capacity() == 4_096,
        r.validated_keys@.len() == 0 && r.validated_keys.capacity() == 4_096,
{
}

/// A name needs no signature exactly if it lies in one of the zones that were set aside:
/// it ends in the labels of that zone.
pub proof fn law_which_names_were_set_aside(r: Recursor, name: Seq<Seq<u8>>, k: int)
    requires
        0 <= k < r.domain_insecure@.len(),
    ensures
        within(name, r.domain_insecure@[k]@) ==> r.insecure_by_choice(name),
        r.insecure_by_choice(name) ==> exists|j: int|
            0 <= j < r.domain_insecure@.len() && within(name, #[trigger] r.domain_insecure@[j]@),
{
}

/// Where every server has just failed, the one that is asked again is the one whose failure
/// lies back the furthest.
pub proof fn law_the_earliest_failure_is_asked_again(
    r: Recursor,
    servers: Seq<SocketAddr>,
    zone: Seq<Seq<u8>>,
    now: u64,
    a: SocketAddr,
)
    requires
        servers.contains(a),
        (a.ip is V4 ==> r.do_ip4) && (a.ip is V6 ==> r.do_ip6),
        forall|x: SocketAddr|
            #[trigger] servers.contains(x) ==> cooling(stat_of(r.infra@, x.ip, zone), now),
    ensures
        ({
            let out = r.ordered(servers, zone, now);
            &&& out.len() == 1
            &&& servers.contains(out[0])
            &&& stat_of(r.infra@, a.ip, zone).last_fail matches Some(later)
            &&& stat_of(r.infra@, out[0].ip, zone).last_fail matches Some(earlier)
            &&& earlier <= later
        }),
{
    let allowed = servers.filter(r.of_allowed_family());
    let ready = allowed.filter(r.not_cooling(zone, now));
    let out = r.ordered(servers, zone, now);
    crate::seqs::lemma_filter_members(servers, r.of_allowed_family(), a);
    if ready.len() > 0 {
        crate::seqs::lemma_filter_members(allowed, r.not_cooling(zone, now), ready[0]);
        crate::seqs::lemma_filter_members(servers, r.of_allowed_family(), ready[0]);
        assert(ready.contains(ready[0]));
        assert(servers.contains(ready[0]));
    }
    let key = r.failure_key(zone, now);
    let best = least_by(allowed, key);
    let k = choose|k: int| 0 <= k < allowed.len() && allowed[k] == a;
    crate::infra::law_the_least_is_chosen(allowed, key);
    assert(key(best) <= key(allowed[k]));
    crate::infra::law_order_is_a_sorted_rearrangement(seq![best], r.order_key(zone, now));
    assert(out.contains(out[0]));
    lemma_same_members(out, seq![best], out[0]);
    assert(out[0] == best);
    crate::seqs::lemma_filter_members(servers, r.of_allowed_family(), best);
    assert(servers.contains(best));
}

} // verus!
