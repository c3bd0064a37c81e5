use onetdns::addr::{IpAddr, Ipv4Addr, Ipv6Addr, SocketAddr};
use onetdns::connections::{
    connection_limiter, connection_queue_capacity, connection_worker_count, ConnectionLimiter,
};
use onetdns::datagram::{
    batch_size_for, datagram_next, looks_like_query, note_recv_batch, process_datagram,
    received_message_is_truncated, recv_batch_counters, DatagramEvent, DatagramStep, DrainState,
    LoopEvent, LoopStep, ReactorLoop, ReceiveCounters, Sampled, SendEvent, SendQueue,
    FULL_UDP_BATCH, MAX_UDP_REQUEST, ROUND_LIMIT, SHARED_UDP_BATCH,
};
use onetdns::encode::{
    encode_form, encode_limited, encode_within, encoding_failure_response, max_udp, truncated,
    LadderStage, SERVER_UDP_MAX,
};
use onetdns::limits::{
    allowed_cpu, can_share_port, fan_out_udp, listener_count, pin_to_core, poll_interval,
    udp_read_timeout, udp_socket_groups, wake_target, worker_count, MAX_WORKERS,
};
use onetdns::message::{
    Edns, Message, Question, RData, Record, CLASS_IN, RCODE_SERVFAIL, TYPE_A,
};
use onetdns::name::Name;
use onetdns::net::IpNet;
use onetdns::proxy::{parse, ProxyParse};
use onetdns::seqs::Replicate;
use onetdns::sockaddr::{decode_sockaddr, sockaddr};
use onetdns::stream::{
    accept_pause, admission, adopt_client, dns_frame, emit_next, frame_rest, handle_conn,
    serve_first,
    message_deadline, trusted_peer, wait_millis, Admission, EmitEvent, EmitStep, ExactRead,
    FrameRest, HeaderEvent, HeaderRead, HeaderStep, ReadEvent, ReadStep, ServeEvent, ServeStep,
};
use onetdns::transport::{
    ReactorDisposition, RequestCtx, ServerConfig, Transport, WireDisposition,
};

const MILLI: u64 = 1_000_000;

const SECOND: u64 = 1_000_000_000;

const V2_SIG: [u8; 12] = [
    0x0d, 0x0a, 0x0d, 0x0a, 0x00, 0x0d, 0x0a, 0x51, 0x55, 0x49, 0x54, 0x0a,
];

fn v4(a: u8, b: u8, c: u8, d: u8) -> IpAddr {
    IpAddr::V4(Ipv4Addr::new(a, b, c, d))
}

fn at(ip: IpAddr, port: u16) -> SocketAddr {
    SocketAddr::new(ip, port)
}

fn name(s: &str) -> Name {
    let labels: Vec<Vec<u8>> = s
        .split('.')
        .filter(|l| !l.is_empty())
        .map(|l| l.as_bytes().to_vec())
        .collect();
    Name::from_labels(labels).unwrap()
}

/// The octets that a message takes without compression, where it can be written.
fn encoded_len(m: &Message) -> Option<usize> {
    if m.header.rcode > 0xfff {
        return None;
    }
    let written = |n: &Name| n.labels().iter().map(|l| l.len() + 1).sum::<usize>() + 1;
    let mut n = 12;
    for q in &m.questions {
        n += written(&q.name) + 4;
    }
    for section in [&m.answers, &m.authorities, &m.additionals] {
        for r in section.iter() {
            n += written(&r.name)
                + 10
                + match &r.rdata {
                    RData::Unknown(_, octets) => octets.len(),
                    RData::Opt(_) => 0,
                    _ => 4,
                };
        }
    }
    Some(n)
}

/// Goes down the ladder to the form that is sent, and gives it with its size.
fn laddered(request: &Message, response: &Message) -> (Message, usize) {
    let mut stage = LadderStage::Whole;
    loop {
        let form = encode_form(stage, request, response);
        match encode_limited(stage, encoded_len(&form), request) {
            None => {
                let n = encoded_len(&form).unwrap();
                return (form, n);
            }
            Some(next) => stage = next,
        }
    }
}

#[test]
fn v1_tcp4() {
    let line = b"PROXY TCP4 192.168.0.1 10.0.0.1 56324 443\r\nDNSDATA";
    match parse(line) {
        ProxyParse::Addr(a, n) => {
            assert_eq!(a, at(v4(192, 168, 0, 1), 56324));
            assert_eq!(n, line.len() - "DNSDATA".len());
        }
        _ => panic!("an address was expected"),
    }
}

#[test]
fn v1_tcp6_and_unknown() {
    let line = b"PROXY TCP6 2001:db8::1 2001:db8::2 1234 53\r\n";
    match parse(line) {
        ProxyParse::Addr(a, _) => {
            let ip = Ipv6Addr::from_segments([0x2001, 0xdb8, 0, 0, 0, 0, 0, 1]);
            assert_eq!(a, at(IpAddr::V6(ip), 1234));
        }
        _ => panic!("an address was expected"),
    }

    match parse(b"PROXY UNKNOWN\r\n") {
        ProxyParse::Local(n) => assert_eq!(n, 15),
        _ => panic!("a connection of the proxy's own was expected"),
    }
}

#[test]
fn v1_incomplete_then_complete() {
    assert!(matches!(parse(b"PRO"), ProxyParse::Incomplete));
    assert!(matches!(parse(b"PROXY TCP4 1.2.3.4 5.6.7.8 1 2"), ProxyParse::Incomplete));
}

#[test]
fn v2_ipv4() {
    let mut h = V2_SIG.to_vec();
    h.push(0x21);
    h.push(0x11);
    h.extend_from_slice(&12u16.to_be_bytes());
    h.extend_from_slice(&[203, 0, 113, 7]);
    h.extend_from_slice(&[10, 0, 0, 1]);
    h.extend_from_slice(&0xd903u16.to_be_bytes());
    h.extend_from_slice(&53u16.to_be_bytes());
    h.extend_from_slice(b"DNS");
    match parse(&h) {
        ProxyParse::Addr(a, n) => {
            assert_eq!(a, at(v4(203, 0, 113, 7), 55555));
            assert_eq!(n, h.len() - 3);
        }
        _ => panic!("an address was expected"),
    }
}

#[test]
fn v2_ipv6() {
    let mut h = V2_SIG.to_vec();
    h.push(0x21);
    h.push(0x21);
    h.extend_from_slice(&36u16.to_be_bytes());
    for i in 0..16u8 {
        h.push(i);
    }
    h.extend_from_slice(&[0; 16]);
    h.extend_from_slice(&5353u16.to_be_bytes());
    h.extend_from_slice(&53u16.to_be_bytes());
    match parse(&h) {
        ProxyParse::Addr(a, n) => {
            let ip = Ipv6Addr::from_segments([
                0x0001, 0x0203, 0x0405, 0x0607, 0x0809, 0x0a0b, 0x0c0d, 0x0e0f,
            ]);
            assert_eq!(a, at(IpAddr::V6(ip), 5353));
            assert_eq!(n, 52);
        }
        _ => panic!("an address was expected"),
    }
    // One octet short of its length, it is still open.
    assert!(matches!(parse(&h[..51]), ProxyParse::Incomplete));
}

#[test]
fn v2_local_command() {
    let mut h = V2_SIG.to_vec();
    h.push(0x20);
    h.push(0x00);
    h.extend_from_slice(&0u16.to_be_bytes());
    match parse(&h) {
        ProxyParse::Local(n) => assert_eq!(n, 16),
        _ => panic!("a connection of the proxy's own was expected"),
    }
}

#[test]
fn not_proxy_plain_dns() {
    assert!(matches!(parse(&[0x00, 0x1d, 0xab, 0xcd]), ProxyParse::NotProxy));
}

#[test]
fn malformed_v1_lines_are_no_headers() {
    for line in [
        b"PROXY TCP4 192.168.0.256 10.0.0.1 1 2\r\n".as_slice(),
        b"PROXY TCP4 192.168.0 10.0.0.1 1 2\r\n",
        b"PROXY TCP4 192.168.00.1 10.0.0.1 1 2\r\n",
        b"PROXY TCP6 2001:db8::1::2 ::1 1 2\r\n",
        b"PROXY TCP4 192.168.0.1 10.0.0.1 65536 2\r\n",
        b"PROXY TCP5 192.168.0.1 10.0.0.1 1 2\r\n",
    ] {
        assert!(matches!(parse(line), ProxyParse::NotProxy));
    }
    // The line has to end within its greatest length.
    let mut long = b"PROXY TCP4 ".to_vec();
    long.resize(107, b'1');
    assert!(matches!(parse(&long), ProxyParse::NotProxy));
    assert!(matches!(parse(&long[..106]), ProxyParse::Incomplete));
}

#[test]
fn later_octets_change_no_verdict() {
    let line = b"PROXY TCP4 192.168.0.1 10.0.0.1 56324 443\r\n";
    let mut longer = line.to_vec();
    longer.extend_from_slice(b"PROXY TCP4 1.1.1.1 1.1.1.1 1 1\r\n");
    assert_eq!(parse(line), parse(&longer));
}

#[test]
fn udp_sockets_are_grouped_so_workers_can_share_one_client() {
    for cpus in [1usize, 4, 28, 300] {
        assert_eq!(udp_socket_groups(0, cpus), 1);
        assert_eq!(udp_socket_groups(1, cpus), 1);
        assert_eq!(udp_socket_groups(cpus, cpus), cpus);
        assert_eq!(udp_socket_groups(cpus * 4, cpus), cpus);
        assert_eq!(udp_socket_groups(MAX_WORKERS, cpus), cpus.min(MAX_WORKERS));
    }
}

#[test]
fn fan_out_gives_every_worker_a_socket_round_robin() {
    let socks = fan_out_udp(2, 5);
    assert_eq!(socks.len(), 5);
    for (idx, sock) in socks.iter().enumerate() {
        assert_eq!(*sock, idx % 2);
    }
}

#[test]
fn worker_affinity_uses_only_the_inherited_cpu_set() {
    let allowed = [0b1010u64, 0b10];
    assert_eq!(allowed_cpu(&allowed, 0), Some(1));
    assert_eq!(allowed_cpu(&allowed, 1), Some(3));
    assert_eq!(allowed_cpu(&allowed, 2), Some(65));
    assert_eq!(allowed_cpu(&allowed, 3), Some(1));
    assert_eq!(allowed_cpu(&[0], 0), None);
}

#[test]
fn pinning_leaves_one_allowed_processor() {
    let mut allowed = [0u64; 16];
    allowed[1] = 0b1100;
    let mut only = [0u64; 16];
    only[1] = 0b1000;
    assert_eq!(pin_to_core(&allowed, 1), Some(only));
    assert_eq!(pin_to_core(&[0u64; 16], 1), None);
}

#[test]
fn worker_count_logic() {
    assert_eq!(worker_count(4, Some(28)), 4);
    assert_eq!(worker_count(0, Some(28)), 28);
    assert_eq!(worker_count(0, Some(MAX_WORKERS + 1)), MAX_WORKERS);
    assert_eq!(worker_count(0, None), 1);
    assert_eq!(worker_count(usize::MAX, Some(28)), MAX_WORKERS);
}

#[test]
fn poll_interval_is_bounded_for_public_runtime_callers() {
    assert_eq!(poll_interval(0), MILLI);
    assert_eq!(poll_interval(100 * MILLI), 100 * MILLI);
    assert_eq!(poll_interval(60 * SECOND), SECOND);
}

#[test]
fn waiting_reads_are_bounded_only_where_that_loses_nothing() {
    assert_eq!(udp_read_timeout(100 * MILLI, false), Some(100 * MILLI));
    assert_eq!(udp_read_timeout(100 * MILLI, true), None);
}

#[test]
fn only_multi_message_stream_transports_advertise_zone_transfer() {
    assert!(Transport::Do53Tcp.supports_xfr());
    assert!(Transport::DoT.supports_xfr());
    assert!(!Transport::DoQ.supports_xfr());
    assert!(!Transport::DoH.supports_xfr());
    assert!(!Transport::DoH3.supports_xfr());
}

#[test]
fn transports_have_names_and_kinds() {
    let all = [
        Transport::Do53Udp,
        Transport::Do53Tcp,
        Transport::DoT,
        Transport::DoH,
        Transport::DoH3,
        Transport::DoQ,
    ];
    for t in all {
        assert_eq!(t.is_plain_do53(), !t.is_encrypted());
        assert!(!t.name().is_empty());
    }
    assert!(Transport::Do53Udp.is_plain_do53());
    assert!(Transport::DoQ.is_encrypted());
    let ctx = RequestCtx::new(at(v4(192, 0, 2, 1), 5300), Transport::DoT);
    assert_eq!(ctx.src, at(v4(192, 0, 2, 1), 5300));
    assert_eq!(ctx.transport, Transport::DoT);
    assert_eq!(ServerConfig::default().poll_interval, 500 * MILLI);
}

#[test]
fn windows_tcp_listener_is_never_duplicated() {
    assert_eq!(listener_count(22, true), 1);
    assert_eq!(listener_count(1, true), 1);
    assert_eq!(listener_count(22, false), 22);
}

#[test]
fn ports_are_shared_only_where_one_was_chosen() {
    assert!(can_share_port(53));
    assert!(!can_share_port(0));
    assert_eq!(wake_target(at(v4(0, 0, 0, 0), 53)), at(v4(127, 0, 0, 1), 53));
    assert_eq!(wake_target(at(v4(192, 0, 2, 1), 53)), at(v4(192, 0, 2, 1), 53));
    let any6 = IpAddr::V6(Ipv6Addr::from_segments([0; 8]));
    let loop6 = IpAddr::V6(Ipv6Addr::from_segments([0, 0, 0, 0, 0, 0, 0, 1]));
    assert_eq!(wake_target(at(any6, 53)), at(loop6, 53));
}

#[test]
fn addresses_are_read_back_from_the_kernel_form() {
    let a = at(v4(192, 0, 2, 1), 5300);
    let (octets, family) = sockaddr(&a, 2, 10, false);
    assert_eq!(octets.len(), 16);
    assert_eq!(family, 2);
    assert_eq!(&octets[..8], &[2, 0, 0x14, 0xb4, 192, 0, 2, 1]);
    let mut storage = [0u8; 28];
    storage[..16].copy_from_slice(&octets);
    assert_eq!(decode_sockaddr(&storage, 2, 10, false), Some(a));

    let ip = IpAddr::V6(Ipv6Addr::from_segments([0x2001, 0xdb8, 0, 0, 0, 0, 0, 1]));
    let b = SocketAddr { flowinfo: 0x0102_0304, scope_id: 7, ..at(ip, 53) };
    for big_endian in [false, true] {
        let (octets, family) = sockaddr(&b, 2, 10, big_endian);
        assert_eq!(octets.len(), 28);
        assert_eq!(family, 10);
        if big_endian {
            assert_eq!(&octets[4..8], &[1, 2, 3, 4]);
            assert_eq!(&octets[24..], &[0, 0, 0, 7]);
        } else {
            assert_eq!(&octets[4..8], &[4, 3, 2, 1]);
            assert_eq!(&octets[24..], &[7, 0, 0, 0]);
        }
        storage.copy_from_slice(&octets);
        assert_eq!(decode_sockaddr(&storage, 2, 10, big_endian), Some(b));
        assert_eq!(decode_sockaddr(&storage, 2, 30, big_endian), None);
    }
    assert_eq!(wake_target(b), b);
}

#[test]
fn dns_frame_vectored_write_handles_short_prefix_and_body() {
    let whole = dns_frame(b"abcdef").unwrap();
    assert_eq!(whole, b"\0\x06abcdef");
    for first_limit in [1usize, 4, usize::MAX] {
        let written = first_limit.min(whole.len());
        let mut bytes = whole[..written].to_vec();
        match frame_rest(written) {
            FrameRest::Failed => panic!("something was written"),
            FrameRest::Prefix(k) => {
                bytes.extend_from_slice(&whole[k..2]);
                bytes.extend_from_slice(b"abcdef");
            }
            FrameRest::Body(k) => bytes.extend_from_slice(&b"abcdef"[k..]),
        }
        assert_eq!(bytes, b"\0\x06abcdef");
    }
    assert_eq!(frame_rest(0), FrameRest::Failed);
}

#[test]
fn dns_frame_rejects_oversized_payload() {
    assert!(dns_frame(&vec![0; usize::from(u16::MAX) + 1]).is_none());
    assert_eq!(dns_frame(&vec![0; usize::from(u16::MAX)]).unwrap().len(), 65537);
}

#[test]
fn length_and_body_share_one_absolute_deadline() {
    let deadline = 450 * MILLI;
    let mut length = ExactRead { want: 2, got: 0, deadline };
    assert_eq!(length.next(0, false), ReadStep::Read);
    assert!(length.read_exact_until(ReadEvent::Octets(1), MILLI));
    assert!(length.read_exact_until(ReadEvent::NotReady, 51 * MILLI));
    assert_eq!(length.next(51 * MILLI, false), ReadStep::Read);
    assert!(length.read_exact_until(ReadEvent::Octets(1), 200 * MILLI));
    assert_eq!(length.next(200 * MILLI, false), ReadStep::Done);

    let mut body = ExactRead { want: 1, got: 0, deadline };
    assert!(body.read_exact_until(ReadEvent::NotReady, 250 * MILLI));
    assert_eq!(body.next(449 * MILLI, false), ReadStep::Read);
    assert_eq!(body.next(450 * MILLI, false), ReadStep::Abort);
    assert!(!body.read_exact_until(ReadEvent::Octets(1), 600 * MILLI));
    assert!(!body.read_exact_until(ReadEvent::Closed, 0));
    assert!(!body.read_exact_until(ReadEvent::Failed, 0));
    assert_eq!(body.next(0, true), ReadStep::Abort);
    assert_eq!(message_deadline(SECOND), 11 * SECOND);
}

#[test]
fn shared_limiter_caps_ip_and_reassigns_trusted_proxy_clients() {
    let mut limiter = ConnectionLimiter::new(512, 64);
    let ip = v4(192, 0, 2, 1);
    let guards: Vec<_> = (0..64).map(|_| limiter.try_acquire(ip).unwrap()).collect();
    assert!(limiter.try_acquire(ip).is_none());

    let proxy_ip = v4(192, 0, 2, 2);
    let mut proxied = limiter.try_acquire(proxy_ip).unwrap();
    assert!(!proxied.reassign_ip(&mut limiter, ip));
    for guard in guards {
        guard.drop(&mut limiter);
    }
    assert!(proxied.reassign_ip(&mut limiter, ip));
    assert!(limiter.try_acquire(proxy_ip).is_some());
    proxied.drop(&mut limiter);
}

#[test]
fn global_pool_bounds_threads_and_reserves_capacity_from_one_ip() {
    assert_eq!(connection_worker_count(1), 8);
    assert_eq!(connection_worker_count(16), 32);
    assert_eq!(connection_worker_count(usize::MAX), 64);
    assert_eq!(connection_queue_capacity(1), 256);
    assert_eq!(connection_queue_capacity(usize::MAX), 4096);

    let mut limiter = connection_limiter(8, 256, false);
    let ip = v4(192, 0, 2, 10);
    let _guards: Vec<_> = (0..6).map(|_| limiter.try_acquire(ip).unwrap()).collect();
    assert!(limiter.try_acquire(ip).is_none());
    assert!(limiter.try_acquire(v4(192, 0, 2, 11)).is_some());
}

#[test]
fn the_whole_number_of_connections_is_bounded() {
    let mut limiter = ConnectionLimiter::new(3, 2);
    assert!(limiter.try_acquire(v4(192, 0, 2, 1)).is_some());
    let second = limiter.try_acquire(v4(192, 0, 2, 2)).unwrap();
    assert!(limiter.try_acquire(v4(192, 0, 2, 3)).is_some());
    assert!(limiter.try_acquire(v4(192, 0, 2, 4)).is_none());
    second.drop(&mut limiter);
    assert!(limiter.try_acquire(v4(192, 0, 2, 4)).is_some());
}

#[test]
fn a_connection_that_moved_about_leaves_nothing_behind() {
    let mut limiter = ConnectionLimiter::new(8, 1);
    let mut guard = limiter.try_acquire(v4(192, 0, 2, 1)).unwrap();
    let held = limiter.try_acquire(v4(192, 0, 2, 9)).unwrap();
    for (to, allowed) in [(2, true), (9, false), (2, true), (3, true), (1, true), (4, true)] {
        assert_eq!(guard.reassign_ip(&mut limiter, v4(192, 0, 2, to)), allowed);
    }
    guard.drop(&mut limiter);
    for d in 1..=8 {
        let here = limiter.try_acquire(v4(192, 0, 2, d));
        if d < 8 {
            assert!(here.is_some());
        } else {
            assert!(here.is_none());
        }
    }
    held.drop(&mut limiter);
}

#[test]
fn a_malformed_message_does_not_end_the_tcp_connection() {
    // A header that speaks of two questions, with one behind it.
    let mut broken = vec![0u8; 12];
    broken[0..2].copy_from_slice(&0x4321u16.to_be_bytes());
    broken[4..6].copy_from_slice(&2u16.to_be_bytes());
    broken.extend_from_slice(&[2, b'n', b's', 0, 0, 1, 0, 1]);

    let mut step = ServeStep::ReadLength;
    step = handle_conn(step, ServeEvent::Length(0, broken.len() as u8), &[]);
    assert_eq!(step, ServeStep::ReadBody(broken.len()));
    step = handle_conn(step, ServeEvent::Body, &broken);
    assert_eq!(step, ServeStep::TryWire);
    step = handle_conn(step, ServeEvent::Wire(WireDisposition::Fallback), &broken);
    assert_eq!(step, ServeStep::Parse);
    step = handle_conn(step, ServeEvent::Malformed, &broken);
    assert_eq!(step, ServeStep::AskUnparsable);
    step = handle_conn(step, ServeEvent::Answer, &broken);
    assert_eq!(step, ServeStep::Send);
    step = handle_conn(step, ServeEvent::Sent(true), &broken);
    assert_eq!(step, ServeStep::ReadLength);

    let good = [0x12u8, 0x34, 1, 0, 0, 1, 0, 0, 0, 0, 0, 0];
    step = handle_conn(step, ServeEvent::Length(0, 12), &[]);
    step = handle_conn(step, ServeEvent::Body, &good);
    step = handle_conn(step, ServeEvent::Wire(WireDisposition::Fallback), &good);
    step = handle_conn(step, ServeEvent::Parsed(false), &good);
    assert_eq!(step, ServeStep::TryPreencoded);
    step = handle_conn(step, ServeEvent::Preencoded(None), &good);
    assert_eq!(step, ServeStep::Stream);
    step = handle_conn(step, ServeEvent::Streamed(true), &good);
    assert_eq!(step, ServeStep::ReadLength);
}

#[test]
fn tcp_wire_response_bypasses_message_parser_and_handler() {
    let body = [0u8; 12];
    let mut step = ServeStep::ReadBody(12);
    step = handle_conn(step, ServeEvent::Body, &body);
    step = handle_conn(step, ServeEvent::Wire(WireDisposition::Respond), &body);
    assert_eq!(step, ServeStep::Send);
    step = handle_conn(step, ServeEvent::Sent(true), &body);
    assert_eq!(step, ServeStep::ReadLength);
}

#[test]
fn tcp_closes_on_unsolicited_dns_response_without_calling_handler() {
    let mut body = [0u8; 12];
    body[2] = 0x80;
    let mut step = ServeStep::ReadBody(12);
    step = handle_conn(step, ServeEvent::Body, &body);
    step = handle_conn(step, ServeEvent::Wire(WireDisposition::Fallback), &body);
    assert_eq!(step, ServeStep::Parse);
    step = handle_conn(step, ServeEvent::Parsed(true), &body);
    assert_eq!(step, ServeStep::Close);
    assert_eq!(handle_conn(step, ServeEvent::Body, &body), ServeStep::Close);
}

#[test]
fn an_empty_message_and_a_refusal_close_the_connection() {
    assert_eq!(handle_conn(ServeStep::ReadLength, ServeEvent::Length(0, 0), &[]), ServeStep::Close);
    assert_eq!(handle_conn(ServeStep::ReadLength, ServeEvent::Stopped, &[]), ServeStep::Close);
    assert_eq!(
        handle_conn(ServeStep::ReadLength, ServeEvent::Length(1, 2), &[]),
        ServeStep::ReadBody(258)
    );
    assert_eq!(
        handle_conn(ServeStep::TryWire, ServeEvent::Wire(WireDisposition::Drop), &[]),
        ServeStep::Close
    );
}

#[test]
fn proxies_have_to_be_trusted() {
    let trusted = vec![IpNet { addr: v4(10, 0, 0, 0), prefix: 8 }];
    let proxy = at(v4(10, 1, 2, 3), 40000);
    let other = at(v4(192, 0, 2, 1), 40000);
    assert!(trusted_peer(proxy, &trusted));
    assert!(!trusted_peer(other, &trusted));
    assert_eq!(admission(other, false, &trusted), Admission::Serve);
    assert_eq!(admission(other, true, &trusted), Admission::Refuse);
    assert_eq!(admission(proxy, true, &trusted), Admission::ReadHeader);
}

#[test]
fn a_connection_begins_as_its_peer_was_admitted() {
    let trusted = vec![IpNet { addr: v4(10, 0, 0, 0), prefix: 8 }];
    let proxy = at(v4(10, 1, 2, 3), 40000);
    let other = at(v4(192, 0, 2, 1), 40000);
    assert_eq!(serve_first(admission(other, false, &trusted)), ServeStep::ReadLength);
    let mut step = serve_first(admission(other, true, &trusted));
    assert_eq!(step, ServeStep::Close);
    for event in [
        ServeEvent::Adopted(Some(proxy)),
        ServeEvent::Length(0, 12),
        ServeEvent::Body,
        ServeEvent::Wire(WireDisposition::Respond),
    ] {
        step = handle_conn(step, event, &[]);
        assert_eq!(step, ServeStep::Close);
    }

    let begun = serve_first(admission(proxy, true, &trusted));
    assert_eq!(begun, ServeStep::ReadHeader);
    // No message is read before it is known whose connection it is.
    assert_eq!(handle_conn(begun, ServeEvent::Length(0, 12), &[]), ServeStep::Close);
    assert_eq!(handle_conn(begun, ServeEvent::Adopted(None), &[]), ServeStep::Close);
    assert_eq!(handle_conn(begun, ServeEvent::Adopted(Some(other)), &[]), ServeStep::ReadLength);
}

#[test]
fn a_proxy_header_is_read_octet_by_octet() {
    let line = b"PROXY TCP4 192.168.0.1 10.0.0.1 56324 443\r\n";
    let mut header = HeaderRead::new(0);
    let mut last = HeaderStep::More;
    for b in line {
        assert_eq!(last, HeaderStep::More);
        assert!(header.may_read(SECOND));
        last = header.read_proxy_header(HeaderEvent::Octet(*b), SECOND, false);
    }
    let client = at(v4(192, 168, 0, 1), 56324);
    assert_eq!(last, HeaderStep::Client(client));

    let proxy = at(v4(10, 0, 0, 1), 1);
    let mut limiter = ConnectionLimiter::new(4, 1);
    let mut first = limiter.try_acquire(proxy.ip).unwrap();
    assert_eq!(adopt_client(&mut limiter, &mut first, proxy, last), Some(client));
    let mut second = limiter.try_acquire(proxy.ip).unwrap();
    assert!(limiter.try_acquire(client.ip).is_none());
    // The client has as many connections as it may have.
    assert_eq!(adopt_client(&mut limiter, &mut second, proxy, last), None);
    assert_eq!(adopt_client(&mut limiter, &mut second, proxy, HeaderStep::Own), Some(proxy));
    assert_eq!(adopt_client(&mut limiter, &mut second, proxy, HeaderStep::Reject), None);
    first.drop(&mut limiter);
    assert!(limiter.try_acquire(client.ip).is_some());

    let mut late = HeaderRead::new(0);
    assert!(!late.may_read(5 * SECOND));
    assert_eq!(
        late.read_proxy_header(HeaderEvent::Octet(b'P'), 5 * SECOND, false),
        HeaderStep::Reject
    );
    assert_eq!(late.read_proxy_header(HeaderEvent::NotReady, 0, false), HeaderStep::More);
    assert_eq!(late.read_proxy_header(HeaderEvent::NotReady, 0, true), HeaderStep::Reject);
    assert_eq!(late.read_proxy_header(HeaderEvent::Closed, 0, false), HeaderStep::Reject);
    assert_eq!(late.read_proxy_header(HeaderEvent::Octet(0), 0, false), HeaderStep::Reject);
}

#[test]
fn a_proxy_header_has_a_longest_length() {
    let own = |rest: usize| {
        let mut h = vec![
            0x0d, 0x0a, 0x0d, 0x0a, 0x00, 0x0d, 0x0a, 0x51, 0x55, 0x49, 0x54, 0x0a, 0x20, 0x00, 0,
            rest as u8,
        ];
        h.resize(16 + rest, 7);
        h
    };
    for (rest, last) in [(240, HeaderStep::Own), (241, HeaderStep::More)] {
        let mut header = HeaderRead::new(0);
        let mut step = HeaderStep::More;
        for b in own(rest) {
            if !header.may_read(SECOND) {
                break;
            }
            step = header.read_proxy_header(HeaderEvent::Octet(b), SECOND, false);
        }
        assert_eq!(step, last);
        assert_eq!(header.buf.len(), 256);
    }
}

#[test]
fn tcp_multi_message_response() {
    // Each of several answers is encoded and sent by itself.
    for _ in 0..3 {
        let step = emit_next(EmitStep::Encode, EmitEvent::Encoded(Some(120)));
        assert_eq!(step, EmitStep::Send);
        assert_eq!(emit_next(step, EmitEvent::Sent(true)), EmitStep::Sent);
    }
    let failed = emit_next(EmitStep::Encode, EmitEvent::Encoded(None));
    assert_eq!(failed, EmitStep::EncodeFailure);
    assert_eq!(emit_next(failed, EmitEvent::Encoded(Some(12))), EmitStep::Send);
    assert_eq!(emit_next(failed, EmitEvent::Encoded(None)), EmitStep::Abort);
    assert_eq!(
        emit_next(EmitStep::Encode, EmitEvent::Encoded(Some(65536))),
        EmitStep::Abort
    );
    assert_eq!(emit_next(EmitStep::Send, EmitEvent::Sent(false)), EmitStep::Abort);
}

#[test]
fn waits_are_whole_milliseconds() {
    assert_eq!(wait_millis(0), 1);
    assert_eq!(wait_millis(7 * MILLI + 1), 7);
    assert_eq!(wait_millis(u64::MAX), i32::MAX);
    assert_eq!(accept_pause(3 * MILLI), 3 * MILLI);
    assert_eq!(accept_pause(500 * MILLI), 10 * MILLI);
}

#[test]
fn an_unparsable_datagram_reaches_the_handler_instead_of_being_dropped() {
    // A header that speaks of two questions, with one behind it.
    let mut packet = vec![0u8; 12];
    packet[0..2].copy_from_slice(&0x0abcu16.to_be_bytes());
    packet[4..6].copy_from_slice(&2u16.to_be_bytes());
    packet.extend_from_slice(&[2, b'n', b's', 0, 0, 1, 0, 1]);

    let mut step = process_datagram(&packet);
    assert_eq!(step, DatagramStep::TryWire);
    step = datagram_next(step, DatagramEvent::Wire(WireDisposition::Fallback, 0));
    assert_eq!(step, DatagramStep::Parse);
    step = datagram_next(step, DatagramEvent::Malformed);
    assert_eq!(step, DatagramStep::AskUnparsable);
    step = datagram_next(step, DatagramEvent::Encoded(Some(12)));
    assert_eq!(step, DatagramStep::Send);
}

#[test]
fn udp_silently_drops_unsolicited_dns_responses() {
    let mut packet = vec![0u8; 12];
    packet[2] = 0x80;
    assert!(!looks_like_query(&packet));
    assert_eq!(process_datagram(&packet), DatagramStep::Discard);
    packet[2] = 0x7f;
    assert_eq!(process_datagram(&packet), DatagramStep::TryWire);
    assert!(!looks_like_query(&packet[..11]));
}

#[test]
fn datagrams_go_through_the_handler_and_back() {
    let mut step = process_datagram(&[0u8; 12]);
    step = datagram_next(step, DatagramEvent::Wire(WireDisposition::Fallback, 0));
    step = datagram_next(step, DatagramEvent::Parsed);
    assert_eq!(step, DatagramStep::Handle);
    assert_eq!(datagram_next(step, DatagramEvent::Answer), DatagramStep::EncodeAndSend);
    assert_eq!(datagram_next(step, DatagramEvent::NoAnswer), DatagramStep::Discard);
    assert_eq!(datagram_next(step, DatagramEvent::Failed), DatagramStep::Discard);
    let wire = DatagramStep::TryWire;
    assert_eq!(
        datagram_next(wire, DatagramEvent::Wire(WireDisposition::Respond, 30)),
        DatagramStep::Send
    );
    assert_eq!(
        datagram_next(wire, DatagramEvent::Wire(WireDisposition::Respond, 0)),
        DatagramStep::Discard
    );
}

#[test]
fn udp_batch_shrinks_only_when_workers_outnumber_cpus() {
    assert_eq!(batch_size_for(1, 1), FULL_UDP_BATCH);
    assert_eq!(batch_size_for(4, 4), FULL_UDP_BATCH);
    assert_eq!(batch_size_for(5, 4), SHARED_UDP_BATCH);
    assert_eq!(batch_size_for(112, 28), SHARED_UDP_BATCH);
    assert_eq!(batch_size_for(1, 0), FULL_UDP_BATCH);
}

#[test]
fn oversized_udp_payload_is_dropped_before_the_wire_handler() {
    let packet = vec![0u8; MAX_UDP_REQUEST + 1];
    assert_eq!(process_datagram(&packet), DatagramStep::Discard);

    let max_sized_packet = vec![0u8; MAX_UDP_REQUEST];
    let step = process_datagram(&max_sized_packet);
    assert_eq!(step, DatagramStep::TryWire);
    assert_eq!(
        datagram_next(step, DatagramEvent::Wire(WireDisposition::Drop, 0)),
        DatagramStep::Discard
    );
}

#[test]
fn truncated_response_never_exceeds_negotiated_udp_limit() {
    let mut request = Message::default();
    request.header.id = 7;
    for index in 0..40 {
        request.questions.push(Question {
            name: name(&format!(
                "question-{index:02}-aaaaaaaaaaaaaaaa.unique-{index:02}-bbbbbbbbbbbbbbbb"
            )),
            qtype: TYPE_A,
            qclass: CLASS_IN,
        });
    }
    let mut response = request.replicate();
    response.header.response = true;
    response.answers = Vec::new();
    let (sent, n) = laddered(&request, &response);

    assert!(n <= 512);
    assert!(sent.header.truncated);
    assert!(sent.questions.is_empty());
}

#[test]
fn truncated_response_preserves_small_opt() {
    let mut request = Message::query(9, name("large.example"), TYPE_A);
    request.additionals.push(
        Edns {
            udp_payload: 1232,
            extended_rcode: 0,
            version: 0,
            dnssec_ok: true,
            options: Vec::new(),
        }
        .to_record(),
    );
    let mut response = request.replicate();
    response.header.response = true;
    response.header.truncated = false;
    response
        .additionals
        .push(Record::new(Name::root(), 0, RData::Unknown(16, vec![0; 2000])));
    let (sent, n) = laddered(&request, &response);

    assert!(n <= 1232);
    assert!(sent.header.truncated);
    assert!(sent.opt().is_some());
}

#[test]
fn invalid_internal_response_never_emits_an_empty_datagram() {
    let request = Message::query(11, name("invalid.example"), TYPE_A);
    let mut response = request.replicate();
    response.header.response = true;
    response.header.rcode = 0x1fff;

    let (sent, n) = laddered(&request, &response);

    assert!(sent.header.response);
    assert_eq!(sent.header.rcode, RCODE_SERVFAIL);
    assert!(n > 0 && n <= 512);
}

#[test]
fn udp_truncation_retries_over_tcp_with_complete_answer() {
    let request = Message::query(5, name("many.example"), TYPE_A);
    let mut response = request.replicate();
    response.header.response = true;
    for i in 0..100u8 {
        let rdata = RData::A(Ipv4Addr::new(192, 0, 2, i));
        response.answers.push(Record::new(name("many.example"), 60, rdata));
    }
    // Over datagrams the answer is cut short, over a stream it goes out whole.
    let (sent, _) = laddered(&request, &response);
    assert!(sent.header.truncated);
    assert!(sent.answers.is_empty());
    assert_eq!(sent.questions.len(), 1);
    assert_eq!(sent.header.id, 5);
    let whole = encoded_len(&response).unwrap();
    assert_eq!(encode_within(LadderStage::Whole, Some(whole), 65535), None);
    assert_eq!(
        encode_within(LadderStage::Whole, Some(whole), 512),
        Some(LadderStage::Truncated)
    );
}

#[test]
fn the_offered_size_is_taken_within_bounds() {
    let mut request = Message::query(5, name("a.example"), TYPE_A);
    assert_eq!(max_udp(&request), 512);
    for (offered, taken) in [(0u16, 512usize), (512, 512), (1000, 1000), (4096, SERVER_UDP_MAX)] {
        request.additionals = vec![Edns {
            udp_payload: offered,
            extended_rcode: 0,
            version: 0,
            dnssec_ok: false,
            options: Vec::new(),
        }
        .to_record()];
        assert_eq!(max_udp(&request), taken);
    }
    let failure = encoding_failure_response(&request);
    assert_eq!(failure.header.rcode, RCODE_SERVFAIL);
    assert_eq!(failure.header.id, 5);
    assert!(failure.questions.is_empty());
    let mut response = request.replicate();
    response.header.rcode = 3;
    response.header.authentic_data = true;
    let short = truncated(&request, &response);
    assert!(short.header.truncated);
    assert_eq!(short.header.rcode, 3);
    assert!(short.header.authentic_data);
    assert_eq!(encode_within(LadderStage::Failure, None, 512), None);
    assert_eq!(encode_within(LadderStage::HeaderOnly, None, 512), Some(LadderStage::Failure));
}

#[test]
fn linux_batch_receiver_rejects_truncated_payload_or_control_data() {
    let cut = libc::MSG_TRUNC;
    let control = libc::MSG_CTRUNC;
    assert!(!received_message_is_truncated(0, cut, control));
    assert!(received_message_is_truncated(libc::MSG_TRUNC, cut, control));
    assert!(received_message_is_truncated(libc::MSG_CTRUNC, cut, control));
    assert!(received_message_is_truncated(libc::MSG_TRUNC | libc::MSG_CTRUNC, cut, control));
}

#[test]
fn received_batches_are_counted() {
    let mut counters = ReceiveCounters { batches: 0, datagrams: 0 };
    note_recv_batch(&mut counters, 3);
    note_recv_batch(&mut counters, 0);
    note_recv_batch(&mut counters, 32);
    assert_eq!(recv_batch_counters(&counters), (3, 35));
}

#[test]
fn a_send_that_fails_does_not_hold_up_the_rest() {
    let mut q = SendQueue { sent: 0, queued: 4 };
    q.advance(SendEvent::Sent(1));
    assert_eq!(q.sent, 1);
    q.advance(SendEvent::Interrupted);
    assert_eq!(q.sent, 1);
    q.advance(SendEvent::Failed);
    assert_eq!(q.sent, 2);
    q.advance(SendEvent::Sent(9));
    assert_eq!(q.sent, 4);
}

#[test]
fn the_event_loop_takes_a_bounded_round() {
    let mut l = ReactorLoop::new();
    l.advance(LoopEvent::Gathered(9_999));
    assert_eq!(l.step, LoopStep::Wait(500));
    l.advance(LoopEvent::Ready(true, true));
    let mut taken = 0;
    while l.step != LoopStep::Pump {
        assert_eq!(l.step, LoopStep::AskCapacity);
        l.advance(LoopEvent::Capacity(true));
        assert_eq!(l.step, LoopStep::Receive);
        l.advance(LoopEvent::Received(true));
        assert_eq!(l.step, LoopStep::TryHit);
        l.advance(LoopEvent::Hit(WireDisposition::Fallback, 0));
        assert_eq!(l.step, LoopStep::Submit);
        l.advance(LoopEvent::Submitted(ReactorDisposition::Submitted, 0));
        taken += 1;
    }
    assert_eq!(taken, ROUND_LIMIT);
    l.advance(LoopEvent::Done);
    assert_eq!(l.step, LoopStep::Tick);
    l.advance(LoopEvent::Done);
    assert_eq!(l.step, LoopStep::Flush);
    l.advance(LoopEvent::Done);
    assert_eq!(l.step, LoopStep::Gather);
    l.advance(LoopEvent::Stop);
    assert_eq!(l.step, LoopStep::Drain);
}

#[test]
fn nothing_is_received_without_room() {
    let mut l = ReactorLoop::new();
    l.advance(LoopEvent::Gathered(0));
    assert_eq!(l.step, LoopStep::Wait(1));
    l.advance(LoopEvent::Ready(true, true));
    l.advance(LoopEvent::Capacity(false));
    assert_eq!(l.step, LoopStep::Pump);
}

#[test]
fn draining_ends_after_idle_passes_or_in_time() {
    let mut d = DrainState::new(0);
    assert!(d.continues(SECOND - 1));
    assert!(!d.continues(SECOND));
    assert_eq!(d.wait(200, 0), 50);
    assert_eq!(d.wait(0, 0), 1);
    assert_eq!(d.wait(50, SECOND - 20 * MILLI), 20);
    for _ in 0..49 {
        d.note_pass(false, false);
    }
    assert!(d.continues(0));
    d.note_pass(true, false);
    assert_eq!(d.idle_passes, 0);
    for _ in 0..50 {
        d.note_pass(false, false);
    }
    assert!(!d.continues(0));
}

#[test]
fn failures_are_reported_at_powers_of_two() {
    let mut s = Sampled { count: 0 };
    let mut reported = Vec::new();
    for _ in 0..20 {
        if let Some(n) = s.note() {
            reported.push(n);
        }
    }
    assert_eq!(reported, vec![1, 2, 4, 8, 16]);
}
