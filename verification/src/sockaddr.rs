//! Addresses as the kernel lays them out.

use vstd::prelude::*;

use crate::addr::{
    be_octets, octet_at, octets_of, plain_addr, pow256, IpAddr, Ipv4Addr, Ipv6Addr, SocketAddr,
};
use crate::proxy::{be_value, read_be};

verus! {

/// The octets of a number in the order of the machine.
pub open spec fn machine_octets(value: int, width: nat, big_endian: bool) -> Seq<u8> {
    if big_endian {
        be_octets(value, width)
    } else {
        be_octets(value, width).reverse()
    }
}

/// The number that octets write in the order of the machine.
pub open spec fn machine_value(s: Seq<u8>, big_endian: bool) -> int {
    if big_endian {
        be_value(s)
    } else {
        be_value(s.reverse())
    }
}

/// The number of the family of an address; `inet` and `inet6` name the two.
pub open spec fn family_of(addr: SocketAddr, inet: u16, inet6: u16) -> u16 {
    if addr.ip is V4 {
        inet
    } else {
        inet6
    }
}

/// The octets of an address: the port and the address in the order of the network,
/// the family, the flow and the link in that of the machine.
pub open spec fn laid_out(addr: SocketAddr, inet: u16, inet6: u16, big_endian: bool) -> Seq<u8> {
    let family = machine_octets(family_of(addr, inet, inet6) as int, 2, big_endian);
    let port = be_octets(addr.port as int, 2);
    match addr.ip {
        IpAddr::V4(a) => family + port + be_octets(a.bits as int, 4) + Seq::new(8, |i: int| 0u8),
        IpAddr::V6(a) => family + port + machine_octets(addr.flowinfo as int, 4, big_endian)
            + be_octets(a.bits as int, 16) + machine_octets(addr.scope_id as int, 4, big_endian),
    }
}

/// The octets of a 16-bit number, most significant first.
fn two_octets(n: u16) -> (r: [u8; 2])
    ensures
        r@ == be_octets(n as int, 2),
{
    proof {
        reveal_with_fuel(pow256, 3);
    }
    let r = [(n / 256) as u8, (n % 256) as u8];
    assert(octet_at(n as int, 2, 0) == (n as int / 256) as u8);
    assert(n as int / 1 == n);
    assert(octet_at(n as int, 2, 1) == (n as int % 256) as u8);
    assert(r@ =~= be_octets(n as int, 2));
    r
}

/// Puts a 32-bit number behind what is there, in the order of the machine.
fn append_word(out: &mut Vec<u8>, n: u32, big_endian: bool)
    ensures
        final(out)@ == old(out)@ + machine_octets(n as int, 4, big_endian),
{
    let o = octets_of(n);
    if big_endian {
        append(out, &o);
    } else {
        let turned = [o[3], o[2], o[1], o[0]];
        assert(turned@ =~= be_octets(n as int, 4).reverse());
        append(out, &turned);
    }
}

/// Lays an address out for the kernel; with it comes the number of its family.
pub fn sockaddr(addr: &SocketAddr, inet: u16, inet6: u16, big_endian: bool) -> (r: (Vec<u8>, u16))
    ensures
        r.0@ == laid_out(*addr, inet, inet6, big_endian),
        r.1 == family_of(*addr, inet, inet6),
{
    let family: u16 = match addr.ip {
        IpAddr::V4(_) => inet,
        IpAddr::V6(_) => inet6,
    };
    let mut out: Vec<u8> = Vec::new();
    let f = two_octets(family);
    if big_endian {
        out.push(f[0]);
        out.push(f[1]);
    } else {
        out.push(f[1]);
        out.push(f[0]);
    }
    assert(out@ =~= machine_octets(family as int, 2, big_endian));
    let p = two_octets(addr.port);
    append(&mut out, &p);
    match addr.ip {
        IpAddr::V4(a) => {
            let o = a.octets();
            append(&mut out, &o);
            append(&mut out, &[0, 0, 0, 0, 0, 0, 0, 0]);
        },
        IpAddr::V6(a) => {
            append_word(&mut out, addr.flowinfo, big_endian);
            let o = a.octets();
            append(&mut out, o.as_slice());
            append_word(&mut out, addr.scope_id, big_endian);
        },
    }
    assert(out@ =~= laid_out(*addr, inet, inet6, big_endian));
    (out, family)
}

fn append(out: &mut Vec<u8>, more: &[u8])
    ensures
        final(out)@ == old(out)@ + more@,
{
    let ghost start = out@;
    let mut i: usize = 0;
    assert(start + more@.take(0) =~= start);
    while i < more.len()
        invariant
            i <= more.len(),
            out@ == start + more@.take(i as int),
        decreases more.len() - i,
    {
        out.push(more[i]);
        assert(out@ =~= start + more@.take(i + 1));
        i = i + 1;
    }
    assert(more@.take(more@.len() as int) =~= more@);
}

/// The address that the kernel wrote; none where the family is neither of the
/// two.
pub open spec fn read_out(
    storage: Seq<u8>,
    inet: u16,
    inet6: u16,
    big_endian: bool,
) -> Option<SocketAddr> {
    let family = machine_value(storage.subrange(0, 2), big_endian);
    let port = be_value(storage.subrange(2, 4)) as u16;
    if family == inet {
        Some(
            plain_addr(
                IpAddr::V4(Ipv4Addr { bits: be_value(storage.subrange(4, 8)) as u32 }),
                port,
            ),
        )
    } else if family == inet6 {
        Some(
            SocketAddr {
                ip: IpAddr::V6(Ipv6Addr { bits: be_value(storage.subrange(8, 24)) as u128 }),
                port,
                flowinfo: machine_value(storage.subrange(4, 8), big_endian) as u32,
                scope_id: machine_value(storage.subrange(24, 28), big_endian) as u32,
            },
        )
    } else {
        None
    }
}

/// The number that `n` octets from `from` on write in the order of the machine.
fn read_machine(s: &[u8; 28], from: usize, n: usize, big_endian: bool) -> (r: u128)
    requires
        from + n <= 28,
        n == 2 || n == 4,
    ensures
        r == machine_value(s@.subrange(from as int, from + n), big_endian),
        r < pow256(n as nat),
{
    if big_endian {
        read_be(s, from, n)
    } else if n == 2 {
        let turned = [s[from + 1], s[from]];
        assert(turned@ =~= s@.subrange(from as int, from + n).reverse());
        assert(turned@.subrange(0, 2) =~= turned@);
        read_be(&turned, 0, 2)
    } else {
        let turned = [s[from + 3], s[from + 2], s[from + 1], s[from]];
        assert(turned@ =~= s@.subrange(from as int, from + n).reverse());
        assert(turned@.subrange(0, 4) =~= turned@);
        read_be(&turned, 0, 4)
    }
}

/// Reads an address that the kernel wrote. `inet` and `inet6` are the values that
/// name the two families.
pub fn decode_sockaddr(storage: &[u8; 28], inet: u16, inet6: u16, big_endian: bool) -> (r: Option<
    SocketAddr,
>)
    ensures
        r == read_out(storage@, inet, inet6, big_endian),
{
    proof {
        reveal_with_fuel(pow256, 17);
    }
    let family: u128 = read_machine(storage, 0, 2, big_endian);
    let port: u16 = read_be(storage, 2, 2) as u16;
    if family == inet as u128 {
        let bits: u128 = read_be(storage, 4, 4);
        return Some(SocketAddr::new(IpAddr::V4(Ipv4Addr { bits: bits as u32 }), port));
    }
    if family == inet6 as u128 {
        let flowinfo: u128 = read_machine(storage, 4, 4, big_endian);
        let bits: u128 = read_be(storage, 8, 16);
        let scope_id: u128 = read_machine(storage, 24, 4, big_endian);
        return Some(SocketAddr::new_v6(Ipv6Addr { bits }, port, flowinfo as u32, scope_id as u32));
    }
    None
}

/// Reading the octets of a number gives the number back.
pub proof fn lemma_octets_read_back(value: int, width: nat)
    requires
        0 <= value < pow256(width),
    ensures
        be_value(be_octets(value, width)) == value,
    decreases width,
{
    let s = be_octets(value, width);
    if width == 0 {
        assert(s =~= Seq::<u8>::empty());
    } else {
        let w = (width - 1) as nat;
        let high = value / 256;
        assert(pow256(width) == 256 * pow256(w));
        assert(0 <= high < pow256(w)) by (nonlinear_arith)
            requires
                high == value / 256,
                0 <= value < 256 * pow256(w),
        ;
        lemma_octets_read_back(high, w);
        assert(s.drop_last() =~= be_octets(high, w)) by {
            assert forall|i: int| 0 <= i < w implies s[i] == octet_at(high, w, i) by {
                let e = (w - 1 - i) as nat;
                assert((width - 1 - i) as nat == e + 1);
                assert(pow256(e + 1) == 256 * pow256(e));
                crate::addr::lemma_pow256_positive(e);
                vstd::arithmetic::div_mod::lemma_div_denominator(value, 256, pow256(e));
            }
        }
        assert(pow256(0) == 1);
        assert(value / pow256(0) == value) by (nonlinear_arith)
            requires
                pow256(0) == 1,
        ;
        assert(s.last() == (value % 256) as u8);
    }
}

proof fn lemma_machine_read_back(value: int, width: nat, big_endian: bool)
    requires
        0 <= value < pow256(width),
    ensures
        machine_value(machine_octets(value, width, big_endian), big_endian) == value,
        machine_octets(value, width, big_endian).len() == width,
{
    lemma_octets_read_back(value, width);
    let s = be_octets(value, width);
    assert(s.reverse().reverse() =~= s);
}

/// What is written for the kernel is read back as the same address, with its flow and
/// its link.
pub proof fn law_addresses_are_read_back(
    addr: SocketAddr,
    rest: Seq<u8>,
    inet: u16,
    inet6: u16,
    big_endian: bool,
)
    requires
        addr.valid(),
        inet != inet6,
    ensures
        read_out(laid_out(addr, inet, inet6, big_endian) + rest, inet, inet6, big_endian) == Some(
            addr,
        ),
{
    let s = laid_out(addr, inet, inet6, big_endian) + rest;
    reveal_with_fuel(pow256, 17);
    let family = family_of(addr, inet, inet6) as int;
    lemma_machine_read_back(family, 2, big_endian);
    assert(s.subrange(0, 2) =~= machine_octets(family, 2, big_endian));
    lemma_octets_read_back(addr.port as int, 2);
    assert(s.subrange(2, 4) =~= be_octets(addr.port as int, 2));
    match addr.ip {
        IpAddr::V4(a) => {
            lemma_octets_read_back(a.bits as int, 4);
            assert(s.subrange(4, 8) =~= be_octets(a.bits as int, 4));
        },
        IpAddr::V6(a) => {
            lemma_machine_read_back(addr.flowinfo as int, 4, big_endian);
            assert(s.subrange(4, 8) =~= machine_octets(addr.flowinfo as int, 4, big_endian));
            lemma_octets_read_back(a.bits as int, 16);
            assert(s.subrange(8, 24) =~= be_octets(a.bits as int, 16));
            lemma_machine_read_back(addr.scope_id as int, 4, big_endian);
            assert(s.subrange(24, 28) =~= machine_octets(addr.scope_id as int, 4, big_endian));
        },
    }
}

/// Where the parts of an address stand: the family in two octets, in the order of the
/// machine; the port behind it, most significant octet first; an IPv4 address from the
/// fifth octet on; for IPv6 the flow from the fifth, the address from the ninth and the
/// link from the 25th octet on. The octets behind an IPv4 address are zero.
pub proof fn law_where_the_parts_of_an_address_stand(
    addr: SocketAddr,
    inet: u16,
    inet6: u16,
    big_endian: bool,
)
    ensures
        ({
            let s = laid_out(addr, inet, inet6, big_endian);
            let family: u16 = if addr.ip is V4 {
                inet
            } else {
                inet6
            };
            &&& family_of(addr, inet, inet6) == family
            &&& big_endian ==> s[0] * 256 + s[1] == family
            &&& !big_endian ==> s[1] * 256 + s[0] == family
            &&& s[2] * 256 + s[3] == addr.port
            &&& addr.ip matches IpAddr::V4(a) ==> {
                &&& s.len() == 16
                &&& s[4] * 0x100_0000 + s[5] * 0x1_0000 + s[6] * 0x100 + s[7] == a.bits
                &&& forall|i: int| 8 <= i < 16 ==> #[trigger] s[i] == 0
            }
            &&& addr.ip matches IpAddr::V6(a) ==> {
                &&& s.len() == 28
                &&& be_value(s.subrange(8, 24)) == a.bits
                &&& big_endian ==> s[4] * 0x100_0000 + s[5] * 0x1_0000 + s[6] * 0x100 + s[7]
                    == addr.flowinfo
                &&& !big_endian ==> s[7] * 0x100_0000 + s[6] * 0x1_0000 + s[5] * 0x100 + s[4]
                    == addr.flowinfo
                &&& big_endian ==> s[24] * 0x100_0000 + s[25] * 0x1_0000 + s[26] * 0x100 + s[27]
                    == addr.scope_id
                &&& !big_endian ==> s[27] * 0x100_0000 + s[26] * 0x1_0000 + s[25] * 0x100 + s[24]
                    == addr.scope_id
            }
        }),
{
    let s = laid_out(addr, inet, inet6, big_endian);
    reveal_with_fuel(pow256, 17);
    let family = family_of(addr, inet, inet6) as int;
    lemma_octets_read_back(family, 2);
    lemma_two(be_octets(family, 2));
    lemma_octets_read_back(addr.port as int, 2);
    lemma_two(be_octets(addr.port as int, 2));
    match addr.ip {
        IpAddr::V4(a) => {
            lemma_octets_read_back(a.bits as int, 4);
            lemma_four(be_octets(a.bits as int, 4));
        },
        IpAddr::V6(a) => {
            lemma_octets_read_back(addr.flowinfo as int, 4);
            lemma_four(be_octets(addr.flowinfo as int, 4));
            lemma_octets_read_back(a.bits as int, 16);
            assert(s.subrange(8, 24) =~= be_octets(a.bits as int, 16));
            lemma_octets_read_back(addr.scope_id as int, 4);
            lemma_four(be_octets(addr.scope_id as int, 4));
        },
    }
}

/// Octets with the most significant one first: each following octet counts 256 times
/// less.
pub proof fn law_most_significant_octet_first(s: Seq<u8>, b: u8)
    ensures
        be_value(Seq::<u8>::empty()) == 0,
        be_value(s.push(b)) == be_value(s) * 256 + b,
{
    assert(s.push(b).drop_last() =~= s);
}

pub(crate) proof fn lemma_two(s: Seq<u8>)
    requires
        s.len() == 2,
    ensures
        be_value(s) == s[0] * 256 + s[1],
{
    reveal_with_fuel(be_value, 3);
}

pub(crate) proof fn lemma_four(s: Seq<u8>)
    requires
        s.len() == 4,
    ensures
        be_value(s) == s[0] * 0x100_0000 + s[1] * 0x1_0000 + s[2] * 0x100 + s[3],
{
    reveal_with_fuel(be_value, 5);
}

/// Only the two families are read, and a port and an address that were read are those
/// that stand there.
pub proof fn law_what_is_read_of_an_address(
    s: Seq<u8>,
    inet: u16,
    inet6: u16,
    big_endian: bool,
)
    requires
        s.len() >= 28,
    ensures
        ({
            let family = if big_endian {
                s[0] * 256 + s[1]
            } else {
                s[1] * 256 + s[0]
            };
            let r = read_out(s, inet, inet6, big_endian);
            &&& r is None <==> family != inet && family != inet6
            &&& family == inet ==> r == Some(
                plain_addr(
                    IpAddr::V4(
                        Ipv4Addr {
                            bits: (s[4] * 0x100_0000 + s[5] * 0x1_0000 + s[6] * 0x100
                                + s[7]) as u32,
                        },
                    ),
                    (s[2] * 256 + s[3]) as u16,
                ),
            )
            &&& family == inet6 && family != inet ==> {
                &&& r matches Some(a)
                &&& a.port == (s[2] * 256 + s[3]) as u16
                &&& a.ip matches IpAddr::V6(x)
                &&& x.bits == be_value(s.subrange(8, 24)) as u128
            }
        }),
{
    lemma_two(s.subrange(0, 2));
    lemma_two(s.subrange(0, 2).reverse());
    lemma_two(s.subrange(2, 4));
    lemma_four(s.subrange(4, 8));
}

} // verus!
