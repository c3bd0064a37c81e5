//! How many workers run, where they run, and how often they wake.

use vstd::prelude::*;

use crate::addr::{plain_addr, IpAddr, SocketAddr};

verus! {

/// No setting starts more workers than this.
pub const MAX_WORKERS: usize = 256;

/// The shortest and the longest time between two looks for the signal to stop,
/// in nanoseconds.
pub const MIN_POLL_INTERVAL: u64 = 1_000_000;

pub const MAX_POLL_INTERVAL: u64 = 1_000_000_000;

/// The number closest to `n` that is neither below `low` nor above `high`.
pub open spec fn clamped(n: int, low: int, high: int) -> int {
    if n < low {
        low
    } else if n > high {
        high
    } else {
        n
    }
}

/// How many workers to start. 0 asks for as many as can run at once; where that
/// is not known, one.
pub fn worker_count(requested: usize, parallelism: Option<usize>) -> (r: usize)
    ensures
        r == clamped(
            if requested != 0 {
                requested as int
            } else {
                match parallelism {
                    Some(n) => n as int,
                    None => 1,
                }
            },
            0,
            MAX_WORKERS as int,
        ),
{
    let n: usize = if requested != 0 {
        requested
    } else {
        match parallelism {
            Some(n) => n,
            None => 1,
        }
    };
    if n <= MAX_WORKERS {
        n
    } else {
        MAX_WORKERS
    }
}

/// The time between two looks for the signal to stop, within its bounds.
pub fn poll_interval(requested: u64) -> (r: u64)
    ensures
        r == clamped(requested as int, MIN_POLL_INTERVAL as int, MAX_POLL_INTERVAL as int),
{
    if requested < MIN_POLL_INTERVAL {
        MIN_POLL_INTERVAL
    } else if requested > MAX_POLL_INTERVAL {
        MAX_POLL_INTERVAL
    } else {
        requested
    }
}

/// How long a UDP worker waits for a datagram. Where a wait that ends can lose
/// one, it has no end, and a datagram wakes the worker.
pub fn udp_read_timeout(poll: u64, waits_lose_datagrams: bool) -> (r: Option<u64>)
    ensures
        r == if waits_lose_datagrams {
            None
        } else {
            Some(poll)
        },
{
    if waits_lose_datagrams {
        None
    } else {
        Some(poll)
    }
}

/// The processor may be used: its bit is set.
pub open spec fn cpu_allowed(mask: Seq<u64>, cpu: int) -> bool {
    0 <= cpu < mask.len() * 64 && (mask[cpu / 64] >> ((cpu % 64) as u64)) & 1 == 1
}

/// The processors below `n` that may be used, in order.
pub open spec fn allowed_below(mask: Seq<u64>, n: nat) -> Seq<int>
    decreases n,
{
    if n == 0 {
        Seq::empty()
    } else {
        let m = allowed_below(mask, (n - 1) as nat);
        if cpu_allowed(mask, n - 1) {
            m.push(n - 1)
        } else {
            m
        }
    }
}

/// All processors that may be used, in order.
pub open spec fn allowed_cpus(mask: Seq<u64>) -> Seq<int> {
    allowed_below(mask, mask.len() * 64)
}

fn is_allowed(mask: &[u64], cpu: usize) -> (r: bool)
    requires
        cpu < mask@.len() * 64,
    ensures
        r == cpu_allowed(mask@, cpu as int),
{
    (mask[cpu / 64] >> ((cpu % 64) as u64)) & 1 == 1
}

proof fn lemma_allowed_below_grows(mask: Seq<u64>, m: nat, n: nat)
    requires
        m <= n,
    ensures
        allowed_below(mask, m).len() <= allowed_below(mask, n).len(),
        allowed_below(mask, m) == allowed_below(mask, n).take(allowed_below(mask, m).len() as int),
    decreases n,
{
    if m < n {
        lemma_allowed_below_grows(mask, m, (n - 1) as nat);
        let a = allowed_below(mask, m);
        let b = allowed_below(mask, (n - 1) as nat);
        assert(allowed_below(mask, n).take(a.len() as int) =~= b.take(a.len() as int));
    } else {
        assert(allowed_below(mask, n).take(allowed_below(mask, n).len() as int) =~= allowed_below(
            mask,
            n,
        ));
    }
}

fn count_allowed(mask: &[u64]) -> (r: usize)
    requires
        mask@.len() * 64 <= usize::MAX,
    ensures
        r == allowed_cpus(mask@).len(),
{
    let end: usize = mask.len() * 64;
    let mut n: usize = 0;
    let mut i: usize = 0;
    while i < end
        invariant
            i <= end,
            end == mask@.len() * 64,
            n <= i,
            n == allowed_below(mask@, i as nat).len(),
        decreases end - i,
    {
        if is_allowed(mask, i) {
            n = n + 1;
        }
        i = i + 1;
    }
    n
}

/// The processor for a worker: the workers take turns on those that may be used.
/// The number of a worker is no number of a processor, since those that may be
/// used need not follow one another.
pub fn allowed_cpu(mask: &[u64], worker: usize) -> (r: Option<usize>)
    requires
        mask@.len() * 64 <= usize::MAX,
    ensures
        r is None <==> allowed_cpus(mask@).len() == 0,
        r matches Some(cpu) ==> cpu == allowed_cpus(mask@)[worker as int % allowed_cpus(
            mask@,
        ).len() as int],
{
    let count: usize = count_allowed(mask);
    if count == 0 {
        return None;
    }
    let target: usize = worker % count;
    let end: usize = mask.len() * 64;
    let mut n: usize = 0;
    let mut i: usize = 0;
    while i < end
        invariant
            i <= end,
            end == mask@.len() * 64,
            n == allowed_below(mask@, i as nat).len(),
            n <= target,
            target < count,
            target == worker as int % count as int,
            count == allowed_cpus(mask@).len(),
        decreases end - i,
    {
        if is_allowed(mask, i) {
            if n == target {
                proof {
                    let a = allowed_below(mask@, (i + 1) as nat);
                    lemma_allowed_below_grows(mask@, (i + 1) as nat, mask@.len() * 64);
                    assert(a[n as int] == i);
                    assert(allowed_cpus(mask@).take(a.len() as int)[n as int] == i);
                }
                return Some(i);
            }
            n = n + 1;
        }
        i = i + 1;
    }
    None
}

/// The set of processors to ask for, given the set that may be used: the one that
/// is the worker's turn, and no other. None where none may be used.
pub fn pin_to_core(allowed: &[u64; 16], idx: usize) -> (r: Option<[u64; 16]>)
    ensures
        r is None <==> allowed_cpus(allowed@).len() == 0,
        r matches Some(m) ==> {
            let cpu = allowed_cpus(allowed@)[idx as int % allowed_cpus(allowed@).len() as int];
            forall|i: int|
                0 <= i < 16 ==> #[trigger] m@[i] == if i == cpu / 64 {
                    1u64 << ((cpu % 64) as u64)
                } else {
                    0
                }
        },
{
    match allowed_cpu(allowed, idx) {
        None => None,
        Some(cpu) => {
            proof {
                law_workers_stay_on_allowed_cpus(allowed@, idx as int);
            }
            let mut mask: [u64; 16] = [0; 16];
            mask[cpu / 64] = 1u64 << ((cpu % 64) as u64);
            Some(mask)
        },
    }
}

proof fn lemma_allowed_below(mask: Seq<u64>, n: nat)
    ensures
        forall|i: int|
            0 <= i < allowed_below(mask, n).len() ==> cpu_allowed(
                mask,
                #[trigger] allowed_below(mask, n)[i],
            ) && allowed_below(mask, n)[i] < n,
        forall|cpu: int|
            0 <= cpu < n && #[trigger] cpu_allowed(mask, cpu) ==> allowed_below(mask, n).contains(
                cpu,
            ),
        allowed_below(mask, n).no_duplicates(),
    decreases n,
{
    if n > 0 {
        lemma_allowed_below(mask, (n - 1) as nat);
        let m = allowed_below(mask, (n - 1) as nat);
        let a = allowed_below(mask, n);
        assert forall|cpu: int| 0 <= cpu < n && #[trigger] cpu_allowed(
            mask,
            cpu,
        ) implies a.contains(cpu) by {
            if cpu == n - 1 {
                assert(a[m.len() as int] == cpu);
            } else {
                let k = choose|k: int| 0 <= k < m.len() && m[k] == cpu;
                assert(a[k] == cpu);
            }
        }
    }
}

/// No worker is put on a processor that may not be used.
pub proof fn law_workers_stay_on_allowed_cpus(mask: Seq<u64>, worker: int)
    requires
        worker >= 0,
        allowed_cpus(mask).len() > 0,
    ensures
        cpu_allowed(mask, allowed_cpus(mask)[worker % allowed_cpus(mask).len() as int]),
{
    lemma_allowed_below(mask, mask.len() * 64);
    let n = allowed_cpus(mask).len() as int;
    assert(0 <= worker % n < n) by (nonlinear_arith)
        requires
            n > 0,
    ;
}

/// With as many workers as processors that may be used, each of those has one.
pub proof fn law_every_allowed_cpu_gets_a_worker(mask: Seq<u64>, cpu: int)
    requires
        cpu_allowed(mask, cpu),
    ensures
        exists|worker: int|
            0 <= worker < allowed_cpus(mask).len() && #[trigger] allowed_cpus(mask)[worker
                % allowed_cpus(mask).len() as int] == cpu,
{
    lemma_allowed_below(mask, mask.len() * 64);
    let a = allowed_cpus(mask);
    assert(a.contains(cpu));
    let k = choose|k: int| 0 <= k < a.len() && a[k] == cpu;
    assert(k % a.len() as int == k) by (nonlinear_arith)
        requires
            0 <= k < a.len(),
    ;
    assert(a[k % a.len() as int] == cpu);
}

/// How many sockets share a port. One for each processor at most: a client always
/// reaches the same socket, and several workers then read from it.
pub fn udp_socket_groups(n: usize, cpus: usize) -> (r: usize)
    ensures
        r == clamped(
            n as int,
            1,
            if cpus >= 1 {
                cpus as int
            } else {
                1
            },
        ),
{
    let m: usize = if n <= cpus {
        n
    } else {
        cpus
    };
    if m >= 1 {
        m
    } else {
        1
    }
}

/// Which socket each worker reads from: the workers take turns.
pub fn fan_out_udp(groups: usize, n: usize) -> (r: Vec<usize>)
    requires
        groups > 0,
    ensures
        r@ == Seq::new(n as nat, |i: int| (i % groups as int) as usize),
{
    let mut out: Vec<usize> = Vec::new();
    let mut i: usize = 0;
    while i < n
        invariant
            i <= n,
            groups > 0,
            out@ == Seq::new(i as nat, |i: int| (i % groups as int) as usize),
        decreases n - i,
    {
        out.push(i % groups);
        assert(out@ =~= Seq::new((i + 1) as nat, |i: int| (i % groups as int) as usize));
        i = i + 1;
    }
    out
}

/// Whether sockets of their own can be opened for one address. With port 0 each
/// would get a port of its own.
pub fn can_share_port(port: u16) -> (r: bool)
    ensures
        r == (port != 0),
{
    port != 0
}

/// How many listeners to open. Where one that is duplicated can sleep in a call
/// that should not block, there is only one.
pub fn listener_count(n: usize, duplicates_block: bool) -> (r: usize)
    ensures
        r == if duplicates_block && n > 1 {
            1
        } else {
            n
        },
{
    if duplicates_block && n > 1 {
        1
    } else {
        n
    }
}

/// The loopback address of a family.
pub open spec fn loopback(ip: IpAddr) -> IpAddr {
    match ip {
        IpAddr::V4(_) => IpAddr::V4(crate::addr::Ipv4Addr { bits: 0x7f00_0001 }),
        IpAddr::V6(_) => IpAddr::V6(crate::addr::Ipv6Addr { bits: 1 }),
    }
}

pub open spec fn is_unspecified(ip: IpAddr) -> bool {
    match ip {
        IpAddr::V4(a) => a.bits == 0,
        IpAddr::V6(a) => a.bits == 0,
    }
}

/// Where to send the datagram that wakes a worker: to the address it listens on,
/// or to the loopback address where it listens on all of them.
pub fn wake_target(addr: SocketAddr) -> (r: SocketAddr)
    ensures
        r == if is_unspecified(addr.ip) {
            plain_addr(loopback(addr.ip), addr.port)
        } else {
            addr
        },
{
    match addr.ip {
        IpAddr::V4(a) => {
            if a.bits == 0 {
                SocketAddr::new(
                    IpAddr::V4(crate::addr::Ipv4Addr { bits: 0x7f00_0001 }),
                    addr.port,
                )
            } else {
                addr
            }
        },
        IpAddr::V6(a) => {
            if a.bits == 0 {
                SocketAddr::new(IpAddr::V6(crate::addr::Ipv6Addr { bits: 1 }), addr.port)
            } else {
                addr
            }
        },
    }
}

/// A number within its bounds stays as it is, one outside them becomes the bound that is
/// closest.
pub proof fn law_the_closest_number_within_bounds(n: int, low: int, high: int, other: int)
    requires
        low <= other <= high,
    ensures
        low <= clamped(n, low, high) <= high,
        low <= n <= high ==> clamped(n, low, high) == n,
        n <= clamped(n, low, high) ==> clamped(n, low, high) - n <= (if other >= n {
            other - n
        } else {
            n - other
        }),
        n >= clamped(n, low, high) ==> n - clamped(n, low, high) <= (if other >= n {
            other - n
        } else {
            n - other
        }),
        MAX_WORKERS == 256,
        MIN_POLL_INTERVAL == 1_000_000,
        MAX_POLL_INTERVAL == 1_000_000_000,
{
}

/// The processors that may be used are those whose bit is set, in ascending order, each
/// of them once.
pub proof fn law_which_processors_may_be_used(mask: Seq<u64>)
    ensures
        forall|word: int, place: u64|
            #![trigger mask[word], allowed_cpus(mask).contains(word * 64 + place)]
            0 <= word < mask.len() && place < 64 ==> (allowed_cpus(mask).contains(
                word * 64 + place,
            ) <==> (mask[word] >> place) & 1 == 1),
        forall|i: int|
            0 <= i < allowed_cpus(mask).len() ==> 0 <= #[trigger] allowed_cpus(mask)[i]
                < mask.len() * 64,
        forall|i: int, j: int|
            0 <= i < j < allowed_cpus(mask).len() ==> allowed_cpus(mask)[i] < allowed_cpus(
                mask,
            )[j],
{
    let all = allowed_cpus(mask);
    lemma_allowed_below(mask, mask.len() * 64);
    lemma_allowed_ascend(mask, mask.len() * 64);
    assert forall|word: int, place: u64|
        #![trigger mask[word], all.contains(word * 64 + place)]
        0 <= word < mask.len() && place < 64 implies (all.contains(word * 64 + place) <==> (
    mask[word] >> place) & 1 == 1) by {
        let cpu = word * 64 + place;
        assert(cpu / 64 == word && cpu % 64 == place);
        assert((cpu % 64) as u64 == place);
        assert(cpu_allowed(mask, cpu) <==> (mask[word] >> place) & 1 == 1);
    }
}

proof fn lemma_allowed_ascend(mask: Seq<u64>, n: nat)
    ensures
        forall|i: int, j: int|
            0 <= i < j < allowed_below(mask, n).len() ==> allowed_below(mask, n)[i]
                < allowed_below(mask, n)[j],
    decreases n,
{
    if n > 0 {
        lemma_allowed_ascend(mask, (n - 1) as nat);
        lemma_allowed_below(mask, (n - 1) as nat);
    }
}

/// What wakes a worker is sent to 127.0.0.1 or ::1 where it listens on 0.0.0.0 or ::.
pub proof fn law_where_a_worker_is_woken(a: crate::addr::Ipv4Addr, b: crate::addr::Ipv6Addr)
    ensures
        is_unspecified(IpAddr::V4(a)) <==> a.bits == 0,
        is_unspecified(IpAddr::V6(b)) <==> b.bits == 0,
        loopback(IpAddr::V4(a)) matches IpAddr::V4(l) && l.bits == 127 * 0x100_0000 + 1,
        loopback(IpAddr::V6(b)) matches IpAddr::V6(l) && l.bits == 1,
{
}

} // verus!
