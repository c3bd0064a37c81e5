//! How many connections are open, in all and from one address.

use vstd::multiset::Multiset;
use vstd::prelude::*;

use crate::addr::IpAddr;
use crate::limits::clamped;

verus! {

pub const MIN_CONNECTION_WORKERS: usize = 8;

pub const MAX_CONNECTION_WORKERS: usize = 64;

pub const MIN_CONNECTION_QUEUE: usize = 256;

pub const MAX_CONNECTION_QUEUE: usize = 4096;

/// What one address may hold where all connections come through a proxy.
pub const MAX_PROXY_CONNECTIONS_PER_IP: usize = 64;

fn clamp(n: usize, low: usize, high: usize) -> (r: usize)
    requires
        low <= high,
    ensures
        r == clamped(n as int, low as int, high as int),
{
    if n < low {
        low
    } else if n > high {
        high
    } else {
        n
    }
}

pub open spec fn at_least_one(n: usize) -> int {
    if n >= 1 {
        n as int
    } else {
        1
    }
}

/// How many workers serve connections: two for each that accepts them, within
/// bounds.
pub fn connection_worker_count(acceptors: usize) -> (r: usize)
    ensures
        r == clamped(
            at_least_one(acceptors) * 2,
            MIN_CONNECTION_WORKERS as int,
            MAX_CONNECTION_WORKERS as int,
        ),
{
    if acceptors >= MAX_CONNECTION_WORKERS {
        MAX_CONNECTION_WORKERS
    } else if acceptors == 0 {
        MIN_CONNECTION_WORKERS
    } else {
        clamp(acceptors * 2, MIN_CONNECTION_WORKERS, MAX_CONNECTION_WORKERS)
    }
}

/// How many connections may wait for a worker: 64 for each that accepts them,
/// within bounds.
pub fn connection_queue_capacity(acceptors: usize) -> (r: usize)
    ensures
        r == clamped(
            at_least_one(acceptors) * 64,
            MIN_CONNECTION_QUEUE as int,
            MAX_CONNECTION_QUEUE as int,
        ),
{
    if acceptors >= MAX_CONNECTION_QUEUE {
        MAX_CONNECTION_QUEUE
    } else if acceptors == 0 {
        MIN_CONNECTION_QUEUE
    } else {
        clamp(acceptors * 64, MIN_CONNECTION_QUEUE, MAX_CONNECTION_QUEUE)
    }
}

/// The connections that are open, each under the address that it counts for.
pub struct ConnectionLimiter {
    max_total: usize,
    max_per_ip: usize,
    open: Vec<IpAddr>,
}

impl View for ConnectionLimiter {
    type V = Multiset<IpAddr>;

    closed spec fn view(&self) -> Multiset<IpAddr> {
        self.open@.to_multiset()
    }
}

impl ConnectionLimiter {
    pub closed spec fn total_limit(&self) -> int {
        self.max_total as int
    }

    pub closed spec fn address_limit(&self) -> int {
        self.max_per_ip as int
    }

    #[verifier::type_invariant]
    spec fn well_formed(self) -> bool {
        &&& self.max_total >= 1
        &&& self.max_per_ip >= 1
        &&& self.open@.len() <= self.max_total
        &&& forall|ip: IpAddr| #[trigger] self.open@.to_multiset().count(ip) <= self.max_per_ip
    }

    /// A limiter with nothing open. Each limit is at least 1.
    pub fn new(max_total: usize, max_per_ip: usize) -> (r: Self)
        ensures
            r@ == Multiset::<IpAddr>::empty(),
            r.total_limit() == at_least_one(max_total),
            r.address_limit() == at_least_one(max_per_ip),
    {
        let open: Vec<IpAddr> = Vec::new();
        proof {
            open@.to_multiset_ensures();
            assert(open@.to_multiset() =~= Multiset::<IpAddr>::empty());
        }
        ConnectionLimiter {
            max_total: if max_total >= 1 {
                max_total
            } else {
                1
            },
            max_per_ip: if max_per_ip >= 1 {
                max_per_ip
            } else {
                1
            },
            open,
        }
    }

    fn count(&self, ip: IpAddr) -> (r: usize)
        ensures
            r == self@.count(ip),
    {
        let mut n: usize = 0;
        let mut i: usize = 0;
        proof {
            self.open@.take(0).to_multiset_ensures();
            assert(self.open@.take(0).to_multiset().count(ip) == 0) by {
                assert(!self.open@.take(0).contains(ip));
            }
        }
        while i < self.open.len()
            invariant
                i <= self.open@.len(),
                n <= i,
                n == self.open@.take(i as int).to_multiset().count(ip),
            decreases self.open.len() - i,
        {
            proof {
                self.open@.take(i as int).to_multiset_ensures();
                assert(self.open@.take(i + 1) =~= self.open@.take(i as int).push(
                    self.open@[i as int],
                ));
            }
            if self.open[i] == ip {
                n = n + 1;
            }
            i = i + 1;
        }
        assert(self.open@.take(self.open@.len() as int) =~= self.open@);
        n
    }

    /// Counts a new connection, if neither limit is reached.
    pub fn try_acquire(&mut self, ip: IpAddr) -> (r: Option<ConnectionGuard>)
        ensures
            r is Some <==> old(self)@.len() < old(self).total_limit() && old(self)@.count(ip)
                < old(self).address_limit(),
            r matches Some(g) ==> g.address() == ip,
            final(self)@ == if r is Some {
                old(self)@.insert(ip)
            } else {
                old(self)@
            },
            final(self).total_limit() == old(self).total_limit(),
            final(self).address_limit() == old(self).address_limit(),
    {
        proof {
            use_type_invariant(&*self);
            self.open@.to_multiset_ensures();
        }
        if self.open.len() >= self.max_total || self.count(ip) >= self.max_per_ip {
            return None;
        }
        self.replace(None, Some(ip));
        Some(ConnectionGuard { ip })
    }

    /// Takes one connection out and puts one in.
    fn replace(&mut self, out: Option<IpAddr>, into: Option<IpAddr>)
        requires
            out matches Some(a) ==> old(self)@.count(a) >= 1,
            into matches Some(b) ==> {
                &&& old(self)@.count(b) < old(self).address_limit()
                &&& out is None ==> old(self)@.len() < old(self).total_limit()
                &&& out != into
            },
        ensures
            final(self)@ == ({
                let rest = match out {
                    Some(a) => old(self)@.remove(a),
                    None => old(self)@,
                };
                match into {
                    Some(b) => rest.insert(b),
                    None => rest,
                }
            }),
            final(self).total_limit() == old(self).total_limit(),
            final(self).address_limit() == old(self).address_limit(),
    {
        proof {
            use_type_invariant(&*self);
        }
        let mut open: Vec<IpAddr> = Vec::new();
        proof {
            open@.to_multiset_ensures();
            assert(open@.to_multiset() =~= Multiset::<IpAddr>::empty());
        }
        let ghost before = self.open@;
        std::mem::swap(&mut open, &mut self.open);
        proof {
            before.to_multiset_ensures();
        }
        if let Some(a) = out {
            take_one(&mut open, a);
        }
        proof {
            open@.to_multiset_ensures();
        }
        if let Some(b) = into {
            open.push(b);
        }
        proof {
            open@.to_multiset_ensures();
            assert forall|ip: IpAddr| #[trigger] open@.to_multiset().count(ip)
                <= self.max_per_ip by {
                assert(before.to_multiset().count(ip) <= self.max_per_ip);
            }
        }
        self.open = open;
    }
}

/// A connection that is counted, and the address that it counts for.
pub struct ConnectionGuard {
    ip: IpAddr,
}

impl ConnectionGuard {
    pub closed spec fn address(&self) -> IpAddr {
        self.ip
    }

    /// Counts the connection for another address from now on, if that one has not
    /// reached its limit.
    pub fn reassign_ip(&mut self, limiter: &mut ConnectionLimiter, ip: IpAddr) -> (r: bool)
        requires
            old(limiter)@.count(old(self).address()) >= 1,
        ensures
            (final(limiter)@, final(self).address(), r) == reassigned(
                old(limiter)@,
                old(self).address(),
                ip,
                old(limiter).address_limit(),
            ),
            final(limiter).total_limit() == old(limiter).total_limit(),
            final(limiter).address_limit() == old(limiter).address_limit(),
    {
        if self.ip == ip {
            assert(limiter@.remove(ip).insert(ip) =~= limiter@);
            return true;
        }
        if limiter.count(ip) >= limiter.max_per_ip {
            return false;
        }
        limiter.replace(Some(self.ip), Some(ip));
        self.ip = ip;
        true
    }

    /// The connection is closed, and counts no more.
    pub fn drop(self, limiter: &mut ConnectionLimiter)
        requires
            old(limiter)@.count(self.address()) >= 1,
        ensures
            final(limiter)@ == old(limiter)@.remove(self.address()),
            final(limiter).total_limit() == old(limiter).total_limit(),
            final(limiter).address_limit() == old(limiter).address_limit(),
    {
        limiter.replace(Some(self.ip), None);
    }
}

/// The open connections once one of them, counted for `from`, asked to be counted for
/// `to`: what it counts for then, and whether that was allowed.
pub open spec fn reassigned(open: Multiset<IpAddr>, from: IpAddr, to: IpAddr, limit: int) -> (
    Multiset<IpAddr>,
    IpAddr,
    bool,
) {
    if from == to || open.count(to) < limit {
        (open.remove(from).insert(to), to, true)
    } else {
        (open, from, false)
    }
}

/// The open connections once one of them asked to be counted for each of the addresses
/// in turn, and the address that it counts for then.
pub open spec fn moved_about(
    open: Multiset<IpAddr>,
    from: IpAddr,
    to: Seq<IpAddr>,
    limit: int,
) -> (Multiset<IpAddr>, IpAddr)
    decreases to.len(),
{
    if to.len() == 0 {
        (open, from)
    } else {
        let (o, f) = moved_about(open, from, to.drop_last(), limit);
        let r = reassigned(o, f, to.last(), limit);
        (r.0, r.1)
    }
}

/// Takes one occurrence of the address out.
fn take_one(open: &mut Vec<IpAddr>, ip: IpAddr)
    requires
        old(open)@.to_multiset().count(ip) >= 1,
    ensures
        final(open)@.to_multiset() == old(open)@.to_multiset().remove(ip),
        final(open)@.len() == old(open)@.len() - 1,
{
    proof {
        open@.to_multiset_ensures();
        assert(open@.contains(ip));
    }
    let mut i: usize = 0;
    while open[i] != ip
        invariant
            i < open.len(),
            open@ == old(open)@,
            exists|j: int| i <= j < open@.len() && open@[j] == ip,
        decreases open@.len() - i,
    {
        i = i + 1;
    }
    let _ = open.remove(i);
}

/// The limiter for a pool: no more connections than can be served or wait, and
/// of those no more from one address than leaves workers for the others. Behind
/// a proxy all come from its address, so that this bound is a wide one.
pub fn connection_limiter(workers: usize, queue_capacity: usize, proxy_protocol: bool) -> (r:
    ConnectionLimiter)
    ensures
        r@ == Multiset::<IpAddr>::empty(),
        r.total_limit() == clamped(workers + queue_capacity, 1, usize::MAX as int),
        r.address_limit() == if proxy_protocol {
            MAX_PROXY_CONNECTIONS_PER_IP as int
        } else {
            clamped(workers - 2, 4, 16)
        },
{
    let max_per_ip: usize = if proxy_protocol {
        MAX_PROXY_CONNECTIONS_PER_IP
    } else if workers < 6 {
        4
    } else {
        clamp(workers - 2, 4, 16)
    };
    let max_total: usize = if workers <= usize::MAX - queue_capacity {
        workers + queue_capacity
    } else {
        usize::MAX
    };
    ConnectionLimiter::new(max_total, max_per_ip)
}

/// Opening a connection, counting it for any number of other addresses on the way, and
/// closing it leaves every count as it was before.
pub proof fn law_closing_undoes_opening(
    open: Multiset<IpAddr>,
    ip: IpAddr,
    to: Seq<IpAddr>,
    limit: int,
)
    ensures
        ({
            let (o, f) = moved_about(open.insert(ip), ip, to, limit);
            &&& o == open.insert(f)
            &&& o.count(f) >= 1
            &&& o.remove(f) == open
        }),
    decreases to.len(),
{
    if to.len() > 0 {
        law_closing_undoes_opening(open, ip, to.drop_last(), limit);
        let f = moved_about(open.insert(ip), ip, to.drop_last(), limit).1;
        assert(open.insert(f).remove(f) =~= open);
    }
    let (o, f) = moved_about(open.insert(ip), ip, to, limit);
    assert(o =~= open.insert(f));
    assert(open.insert(f).remove(f) =~= open);
}

/// Counting a connection for another address keeps the number of connections, and
/// the count of every address but the two.
pub proof fn law_reassigning_keeps_the_number(
    open: Multiset<IpAddr>,
    from: IpAddr,
    to: IpAddr,
    other: IpAddr,
)
    requires
        open.count(from) >= 1,
        other != from,
        other != to,
    ensures
        open.remove(from).insert(to).len() == open.len(),
        open.remove(from).insert(to).count(other) == open.count(other),
{
}

/// One address cannot keep all workers busy: what it may hold is less than the
/// number of workers.
pub proof fn law_one_address_leaves_workers_free(acceptors: usize)
    ensures
        ({
            let workers = clamped(
                at_least_one(acceptors) * 2,
                MIN_CONNECTION_WORKERS as int,
                MAX_CONNECTION_WORKERS as int,
            );
            clamped(workers - 2, 4, 16) < workers
        }),
{
}

/// A connection is counted for another address exactly if that is its own address or one
/// that has not reached its limit; then the new address has one more and the old one has
/// one fewer. Where it is refused, nothing changes.
pub proof fn law_when_a_connection_changes_its_address(
    open: Multiset<IpAddr>,
    from: IpAddr,
    to: IpAddr,
    limit: int,
)
    requires
        open.count(from) >= 1,
    ensures
        ({
            let (o, f, allowed) = reassigned(open, from, to, limit);
            &&& allowed <==> (from == to || open.count(to) < limit)
            &&& allowed ==> f == to
            &&& allowed && from == to ==> o == open
            &&& allowed && from != to ==> o.count(to) == open.count(to) + 1 && o.count(from)
                == open.count(from) - 1
            &&& !allowed ==> o == open && f == from
            &&& o.len() == open.len()
            &&& forall|x: IpAddr|
                x != from && x != to ==> #[trigger] o.count(x) == open.count(x)
        }),
{
    if from == to {
        assert(open.remove(from).insert(to) =~= open);
    }
}

/// Two workers for each that accepts, at least 8 and at most 64; 64 places to wait for
/// each, at least 256 and at most 4096; and no pool is smaller than one with fewer that
/// accept.
pub proof fn law_how_large_a_pool_is(acceptors: usize, more: usize)
    ensures
        ({
            let workers = clamped(
                at_least_one(acceptors) * 2,
                MIN_CONNECTION_WORKERS as int,
                MAX_CONNECTION_WORKERS as int,
            );
            let queue = clamped(
                at_least_one(acceptors) * 64,
                MIN_CONNECTION_QUEUE as int,
                MAX_CONNECTION_QUEUE as int,
            );
            &&& acceptors <= 4 ==> workers == 8 && queue == 256
            &&& 4 <= acceptors <= 32 ==> workers == 2 * acceptors
            &&& acceptors >= 32 ==> workers == 64
            &&& 4 <= acceptors <= 64 ==> queue == 64 * acceptors
            &&& acceptors >= 64 ==> queue == 4096
            &&& MAX_PROXY_CONNECTIONS_PER_IP == 64
            &&& at_least_one(0) == 1
            &&& acceptors <= more ==> at_least_one(acceptors) <= at_least_one(more)
        }),
{
}

} // verus!
