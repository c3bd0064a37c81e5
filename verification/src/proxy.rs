//! The header by which a proxy names the client it speaks for, in its text form
//! and in its binary form.

use vstd::prelude::*;

use crate::addr::{plain_addr, IpAddr, Ipv4Addr, Ipv6Addr, SocketAddr};

verus! {

/// What the octets read so far turned out to be.
#[derive(Clone, Copy, PartialEq, Eq, Structural, Debug)]
pub enum ProxyParse {
    /// A header: the client, and how many octets the header takes.
    Addr(SocketAddr, usize),
    /// A header for a connection of the proxy's own; the address stays.
    Local(usize),
    /// The start of a header. More has to be read.
    Incomplete,
    /// No header.
    NotProxy,
}

/// The longest text header, with its end of line.
pub const V1_MAX: usize = 107;

/// What a text header starts with: `PROXY` and a space.
pub open spec fn v1_start() -> Seq<u8> {
    seq![0x50, 0x52, 0x4f, 0x58, 0x59, 0x20]
}

/// What a binary header starts with.
pub open spec fn v2_signature() -> Seq<u8> {
    seq![0x0d, 0x0a, 0x0d, 0x0a, 0x00, 0x0d, 0x0a, 0x51, 0x55, 0x49, 0x54, 0x0a]
}

pub open spec fn starts_with(s: Seq<u8>, p: Seq<u8>) -> bool {
    p.len() <= s.len() && s.take(p.len() as int) == p
}

pub open spec fn is_space(c: u8) -> bool {
    c == 0x20 || c == 0x09 || c == 0x0a || c == 0x0c || c == 0x0d
}

pub open spec fn is_digit(c: u8) -> bool {
    0x30 <= c <= 0x39
}

pub open spec fn is_hex(c: u8) -> bool {
    is_digit(c) || 0x41 <= c <= 0x46 || 0x61 <= c <= 0x66
}

pub open spec fn hex_digit(c: u8) -> int {
    if is_digit(c) {
        c - 0x30
    } else if c <= 0x46 {
        c - 0x41 + 10
    } else {
        c - 0x61 + 10
    }
}

/// The last of the pieces with `c` behind it.
pub open spec fn extended(pieces: Seq<Seq<u8>>, c: u8) -> Seq<Seq<u8>> {
    pieces.drop_last().push(pieces.last().push(c))
}

/// The words between white space.
pub open spec fn words(s: Seq<u8>) -> Seq<Seq<u8>>
    decreases s.len(),
{
    if s.len() == 0 {
        Seq::empty()
    } else {
        let m = s.drop_last();
        let c = s.last();
        if is_space(c) {
            words(m)
        } else if m.len() == 0 || is_space(m.last()) {
            words(m).push(seq![c])
        } else {
            extended(words(m), c)
        }
    }
}

/// What stands before, between and behind the separators.
pub open spec fn pieces(s: Seq<u8>, separator: u8) -> Seq<Seq<u8>>
    decreases s.len(),
{
    if s.len() == 0 {
        seq![Seq::empty()]
    } else if s.last() == separator {
        pieces(s.drop_last(), separator).push(Seq::empty())
    } else {
        extended(pieces(s.drop_last(), separator), s.last())
    }
}

pub open spec fn all_digits(s: Seq<u8>) -> bool {
    forall|i: int| 0 <= i < s.len() ==> is_digit(#[trigger] s[i])
}

pub open spec fn all_hex(s: Seq<u8>) -> bool {
    forall|i: int| 0 <= i < s.len() ==> is_hex(#[trigger] s[i])
}

/// The number that the digits write in the given base.
pub open spec fn number(s: Seq<u8>, base: int) -> int
    decreases s.len(),
{
    if s.len() == 0 {
        0
    } else {
        number(s.drop_last(), base) * base + hex_digit(s.last())
    }
}

/// A port: decimal digits, which a plus may lead.
pub open spec fn port_text(s: Seq<u8>) -> Option<u16> {
    let d = if s.len() > 0 && s[0] == 0x2b {
        s.skip(1)
    } else {
        s
    };
    if d.len() > 0 && all_digits(d) && number(d, 10) <= 0xffff {
        Some(number(d, 10) as u16)
    } else {
        None
    }
}

/// One of the four numbers of an IPv4 address, without leading zeros.
pub open spec fn octet_text(s: Seq<u8>) -> Option<u8> {
    if 1 <= s.len() <= 3 && all_digits(s) && (s.len() == 1 || s[0] != 0x30) && number(s, 10)
        <= 0xff {
        Some(number(s, 10) as u8)
    } else {
        None
    }
}

/// An IPv4 address: four numbers with dots between them.
pub open spec fn v4_text(s: Seq<u8>) -> Option<u32> {
    let p = pieces(s, 0x2e);
    if p.len() != 4 {
        None
    } else {
        match (octet_text(p[0]), octet_text(p[1]), octet_text(p[2]), octet_text(p[3])) {
            (Some(a), Some(b), Some(c), Some(d)) => Some(
                crate::addr::v4_value(a, b, c, d) as u32,
            ),
            _ => None,
        }
    }
}

/// A group of an IPv6 address: one to four hexadecimal digits.
pub open spec fn group_text(s: Seq<u8>) -> Option<u16> {
    if 1 <= s.len() <= 4 && all_hex(s) {
        Some(number(s, 16) as u16)
    } else {
        None
    }
}

/// The groups of all the pieces; none where one of them is no group.
pub open spec fn groups_of(p: Seq<Seq<u8>>) -> Option<Seq<u16>>
    decreases p.len(),
{
    if p.len() == 0 {
        Some(Seq::empty())
    } else {
        match (groups_of(p.drop_last()), group_text(p.last())) {
            (Some(g), Some(x)) => Some(g.push(x)),
            _ => None,
        }
    }
}

/// Groups with colons between them. The last one may be an IPv4 address, which
/// counts as two groups, where `dotted` says so.
pub open spec fn list_text(s: Seq<u8>, dotted: bool) -> Option<Seq<u16>> {
    if s.len() == 0 {
        Some(Seq::empty())
    } else {
        let p = pieces(s, 0x3a);
        match v4_text(p.last()) {
            Some(v) => if dotted {
                match groups_of(p.drop_last()) {
                    Some(g) => Some(
                        g.push((v as int / 0x1_0000) as u16).push((v as int % 0x1_0000) as u16),
                    ),
                    None => None,
                }
            } else {
                None
            },
            None => groups_of(p),
        }
    }
}

/// Where the first pair of colons stands, from `from` on; -1 where there is none.
pub open spec fn double_colon(s: Seq<u8>, from: int) -> int
    decreases s.len() - from,
{
    if from < 0 || from + 2 > s.len() {
        -1
    } else if s[from] == 0x3a && s[from + 1] == 0x3a {
        from
    } else {
        double_colon(s, from + 1)
    }
}

/// The eight groups as one number.
pub open spec fn from_groups(g: Seq<u16>) -> int
    decreases g.len(),
{
    if g.len() == 0 {
        0
    } else {
        from_groups(g.drop_last()) * 0x1_0000 + g.last()
    }
}

pub open spec fn zeros(n: int) -> Seq<u16> {
    Seq::new(n as nat, |i: int| 0u16)
}

/// The eight groups of an IPv6 address. A pair of colons stands for one or more
/// groups of zeros, and for as many as are missing.
pub open spec fn v6_groups(s: Seq<u8>) -> Option<Seq<u16>> {
    let at = double_colon(s, 0);
    if at < 0 {
        match list_text(s, true) {
            Some(g) => if g.len() == 8 {
                Some(g)
            } else {
                None
            },
            None => None,
        }
    } else {
        match (list_text(s.take(at), false), list_text(s.skip(at + 2), true)) {
            (Some(h), Some(t)) => if h.len() + t.len() <= 7 {
                Some(h + zeros(8 - h.len() - t.len()) + t)
            } else {
                None
            },
            _ => None,
        }
    }
}

/// An address in text form.
pub open spec fn ip_text(s: Seq<u8>) -> Option<IpAddr> {
    match v4_text(s) {
        Some(v) => Some(IpAddr::V4(Ipv4Addr { bits: v })),
        None => match v6_groups(s) {
            Some(g) => Some(IpAddr::V6(Ipv6Addr { bits: from_groups(g) as u128 })),
            None => None,
        },
    }
}

/// Where the first end of line stands, from `from` on and before `limit`; -1 where
/// there is none.
pub open spec fn line_end(s: Seq<u8>, from: int, limit: int) -> int
    decreases limit - from,
{
    if from < 0 || from + 2 > limit || from + 2 > s.len() {
        -1
    } else if s[from] == 0x0d && s[from + 1] == 0x0a {
        from
    } else {
        line_end(s, from + 1, limit)
    }
}

/// What the words of a text header say, in a header of `taken` octets.
pub open spec fn v1_line(w: Seq<Seq<u8>>, taken: usize) -> ProxyParse {
    if w.len() == 0 || w[0] != v1_start().take(5) {
        ProxyParse::NotProxy
    } else if w.len() >= 2 && w[1] == unknown_word() {
        if w.len() == 2 {
            ProxyParse::Local(taken)
        } else {
            ProxyParse::NotProxy
        }
    } else if w.len() != 6 {
        ProxyParse::NotProxy
    } else {
        match (ip_text(w[2]), ip_text(w[3]), port_text(w[4]), port_text(w[5])) {
            (Some(src), Some(dst), Some(port), Some(_)) => if port != 0 && ((w[1] == tcp_word(0x34)
                && src is V4 && dst is V4) || (w[1] == tcp_word(0x36) && src is V6 && dst is V6)) {
                ProxyParse::Addr(plain_addr(src, port), taken)
            } else {
                ProxyParse::NotProxy
            },
            _ => ProxyParse::NotProxy,
        }
    }
}

/// `UNKNOWN`.
pub open spec fn unknown_word() -> Seq<u8> {
    seq![0x55, 0x4e, 0x4b, 0x4e, 0x4f, 0x57, 0x4e]
}

/// `TCP` and one more character.
pub open spec fn tcp_word(c: u8) -> Seq<u8> {
    seq![0x54, 0x43, 0x50, c]
}

pub open spec fn v1_spec(s: Seq<u8>) -> ProxyParse {
    let end = line_end(s, 0, V1_MAX as int);
    if end >= 0 {
        v1_line(words(s.take(end)), (end + 2) as usize)
    } else if s.len() >= V1_MAX {
        ProxyParse::NotProxy
    } else {
        ProxyParse::Incomplete
    }
}

pub open spec fn be_value(s: Seq<u8>) -> int
    decreases s.len(),
{
    if s.len() == 0 {
        0
    } else {
        be_value(s.drop_last()) * 256 + s.last()
    }
}

/// The address in a binary header of `total` octets.
pub open spec fn v2_addr(s: Seq<u8>, total: int) -> ProxyParse {
    let v4 = s[13] == 0x11 && total >= 28;
    let v6 = s[13] == 0x21 && total >= 52;
    let port = if v4 {
        s[24] * 256 + s[25]
    } else {
        s[48] * 256 + s[49]
    };
    if (v4 || v6) && port != 0 {
        ProxyParse::Addr(
            plain_addr(
                if v4 {
                    IpAddr::V4(Ipv4Addr { bits: be_value(s.subrange(16, 20)) as u32 })
                } else {
                    IpAddr::V6(Ipv6Addr { bits: be_value(s.subrange(16, 32)) as u128 })
                },
                port as u16,
            ),
            total as usize,
        )
    } else {
        ProxyParse::NotProxy
    }
}

pub open spec fn v2_spec(s: Seq<u8>) -> ProxyParse {
    if s.len() < 16 {
        ProxyParse::Incomplete
    } else {
        let total = 16 + s[14] * 256 + s[15];
        if s[12] as int / 16 != 2 || s[12] as int % 16 > 1 {
            ProxyParse::NotProxy
        } else if s.len() < total {
            ProxyParse::Incomplete
        } else if s[12] as int % 16 == 0 {
            ProxyParse::Local(total as usize)
        } else {
            v2_addr(s, total)
        }
    }
}

/// What the octets at the start of a connection are. As long as they could still
/// become the start of a header, that is left open.
pub open spec fn proxy_spec(s: Seq<u8>) -> ProxyParse {
    if starts_with(s, v2_signature()) {
        v2_spec(s)
    } else if starts_with(s, v1_start()) {
        v1_spec(s)
    } else if s.len() < 6 && starts_with(v1_start(), s) {
        ProxyParse::Incomplete
    } else if s.len() < 12 && starts_with(v2_signature(), s) {
        ProxyParse::Incomplete
    } else {
        ProxyParse::NotProxy
    }
}

/// The words and pieces that were cut out, as sequences of octets.
pub open spec fn texts(v: Seq<Vec<u8>>) -> Seq<Seq<u8>> {
    Seq::new(v.len(), |i: int| v[i]@)
}

fn copy_range(s: &[u8], from: usize, to: usize) -> (r: Vec<u8>)
    requires
        from <= to <= s@.len(),
    ensures
        r@ == s@.subrange(from as int, to as int),
{
    let mut out: Vec<u8> = Vec::new();
    let mut i: usize = from;
    while i < to
        invariant
            from <= i <= to <= s@.len(),
            out@ == s@.subrange(from as int, i as int),
        decreases to - i,
    {
        out.push(s[i]);
        assert(out@ =~= s@.subrange(from as int, i + 1));
        i = i + 1;
    }
    out
}

fn space(c: u8) -> (r: bool)
    ensures
        r == is_space(c),
{
    c == 0x20 || c == 0x09 || c == 0x0a || c == 0x0c || c == 0x0d
}

fn digit(c: u8) -> (r: bool)
    ensures
        r == is_digit(c),
{
    0x30 <= c && c <= 0x39
}

fn hex(c: u8) -> (r: bool)
    ensures
        r == is_hex(c),
{
    digit(c) || (0x41 <= c && c <= 0x46) || (0x61 <= c && c <= 0x66)
}

fn same_octets(a: &Vec<u8>, b: &[u8]) -> (r: bool)
    ensures
        r == (a@ == b@),
{
    if a.len() != b.len() {
        return false;
    }
    let mut i: usize = 0;
    while i < a.len()
        invariant
            i <= a.len(),
            a@.len() == b@.len(),
            forall|j: int| 0 <= j < i ==> a@[j] == b@[j],
        decreases a.len() - i,
    {
        if a[i] != b[i] {
            return false;
        }
        i = i + 1;
    }
    assert(a@ =~= b@);
    true
}

fn extend_last(v: &mut Vec<Vec<u8>>, c: u8)
    requires
        old(v)@.len() > 0,
    ensures
        texts(final(v)@) == extended(texts(old(v)@), c),
        final(v)@.len() == old(v)@.len(),
{
    let ghost before = texts(v@);
    match v.pop() {
        Some(mut last) => {
            last.push(c);
            v.push(last);
            assert(texts(v@) =~= extended(before, c));
        },
        None => {},
    }
}

proof fn lemma_words_nonempty(s: Seq<u8>)
    requires
        s.len() > 0,
        !is_space(s.last()),
    ensures
        words(s).len() > 0,
    decreases s.len(),
{
    let m = s.drop_last();
    if m.len() > 0 && !is_space(m.last()) {
        lemma_words_nonempty(m);
    }
}

fn split_words(s: &[u8], to: usize) -> (r: Vec<Vec<u8>>)
    requires
        to <= s@.len(),
    ensures
        texts(r@) == words(s@.take(to as int)),
{
    let mut out: Vec<Vec<u8>> = Vec::new();
    let mut i: usize = 0;
    assert(texts(out@) =~= words(s@.take(0)));
    while i < to
        invariant
            i <= to <= s@.len(),
            texts(out@) == words(s@.take(i as int)),
        decreases to - i,
    {
        let c: u8 = s[i];
        proof {
            let t = s@.take(i + 1);
            assert(t.drop_last() =~= s@.take(i as int));
            assert(t.last() == c);
            if i > 0 && !is_space(s@[i - 1]) {
                assert(s@.take(i as int).last() == s@[i - 1]);
                lemma_words_nonempty(s@.take(i as int));
            }
        }
        if space(c) {
        } else if i == 0 || space(s[i - 1]) {
            let ghost before = texts(out@);
            let mut word: Vec<u8> = Vec::new();
            word.push(c);
            assert(word@ =~= seq![c]);
            out.push(word);
            assert(texts(out@) =~= before.push(seq![c]));
        } else {
            assert(texts(out@).len() == out@.len());
            extend_last(&mut out, c);
        }
        i = i + 1;
    }
    out
}

fn split_pieces(s: &Vec<u8>, separator: u8) -> (r: Vec<Vec<u8>>)
    ensures
        texts(r@) == pieces(s@, separator),
        r@.len() > 0,
{
    let mut out: Vec<Vec<u8>> = Vec::new();
    out.push(Vec::new());
    let mut i: usize = 0;
    assert(texts(out@) =~= pieces(s@.take(0), separator));
    while i < s.len()
        invariant
            i <= s.len(),
            texts(out@) == pieces(s@.take(i as int), separator),
            out@.len() > 0,
        decreases s.len() - i,
    {
        let c: u8 = s[i];
        proof {
            let t = s@.take(i + 1);
            assert(t.drop_last() =~= s@.take(i as int));
            assert(t.last() == c);
        }
        if c == separator {
            let ghost before = texts(out@);
            let empty: Vec<u8> = Vec::new();
            assert(empty@ =~= Seq::<u8>::empty());
            out.push(empty);
            assert(texts(out@) =~= before.push(Seq::empty()));
        } else {
            extend_last(&mut out, c);
        }
        i = i + 1;
    }
    assert(s@.take(s@.len() as int) =~= s@);
    out
}

proof fn lemma_number_grows(s: Seq<u8>, k: int, base: int)
    requires
        0 <= k <= s.len(),
        base >= 1,
        all_hex(s),
    ensures
        0 <= number(s.take(k), base) <= number(s, base),
    decreases s.len(),
{
    if s.len() > 0 {
        let m = s.drop_last();
        let c = s.last();
        assert(all_hex(m));
        assert(is_hex(s[s.len() - 1]));
        assert(0 <= hex_digit(c) < 16);
        lemma_number_grows(m, if k < s.len() { k } else { m.len() as int }, base);
        lemma_number_grows(m, m.len() as int, base);
        assert(m.take(m.len() as int) =~= m);
        let n = number(m, base);
        assert(n * base >= n) by (nonlinear_arith)
            requires
                n >= 0,
                base >= 1,
        ;
        if k < s.len() {
            assert(s.take(k) =~= m.take(k));
        } else {
            assert(s.take(k) =~= s);
        }
    } else {
        assert(s.take(k) =~= s);
    }
}

/// The number that decimal digits write, if it is no more than `most`.
fn decimal(s: &Vec<u8>, from: usize, most: u32) -> (r: Option<u32>)
    requires
        from <= s@.len(),
        most <= 0xffff,
    ensures
        ({
            let d = s@.skip(from as int);
            &&& r is Some <==> all_digits(d) && number(d, 10) <= most
            &&& r matches Some(n) ==> n == number(d, 10)
        }),
{
    let ghost d = s@.skip(from as int);
    let mut n: u32 = 0;
    let mut i: usize = from;
    assert(d.take(0) =~= Seq::<u8>::empty());
    while i < s.len()
        invariant
            from <= i <= s@.len(),
            most <= 0xffff,
            d == s@.skip(from as int),
            n == number(d.take(i - from), 10),
            n <= most,
            forall|j: int| 0 <= j < i - from ==> is_digit(#[trigger] d[j]),
        decreases s.len() - i,
    {
        let c: u8 = s[i];
        assert(d[i - from] == c);
        if !digit(c) {
            return None;
        }
        proof {
            let t = d.take(i - from + 1);
            assert(t.drop_last() =~= d.take(i - from));
            assert(t.last() == c);
        }
        let next: u32 = n * 10 + (c - 0x30) as u32;
        if next > most {
            proof {
                if all_digits(d) {
                    assert(all_hex(d));
                    lemma_number_grows(d, i - from + 1, 10);
                }
            }
            return None;
        }
        n = next;
        i = i + 1;
    }
    assert(d.take(s.len() - from) =~= d);
    Some(n)
}

fn parse_port(s: &Vec<u8>) -> (r: Option<u16>)
    ensures
        r == port_text(s@),
{
    let from: usize = if s.len() > 0 && s[0] == 0x2b {
        1
    } else {
        0
    };
    assert(s@.skip(0) =~= s@);
    if from >= s.len() {
        return None;
    }
    match decimal(s, from, 0xffff) {
        Some(n) => Some(n as u16),
        None => None,
    }
}

fn parse_octet(s: &Vec<u8>) -> (r: Option<u8>)
    ensures
        r == octet_text(s@),
{
    if s.len() == 0 || s.len() > 3 || (s.len() > 1 && s[0] == 0x30) {
        return None;
    }
    assert(s@.skip(0) =~= s@);
    match decimal(s, 0, 0xff) {
        Some(n) => Some(n as u8),
        None => None,
    }
}

fn parse_v4(s: &Vec<u8>) -> (r: Option<u32>)
    ensures
        r == v4_text(s@),
{
    let p = split_pieces(s, 0x2e);
    assert(texts(p@).len() == p@.len());
    if p.len() != 4 {
        return None;
    }
    assert(texts(p@)[0] == p@[0]@ && texts(p@)[1] == p@[1]@ && texts(p@)[2] == p@[2]@
        && texts(p@)[3] == p@[3]@);
    match (parse_octet(&p[0]), parse_octet(&p[1]), parse_octet(&p[2]), parse_octet(&p[3])) {
        (Some(a), Some(b), Some(c), Some(d)) => Some(Ipv4Addr::new(a, b, c, d).bits),
        _ => None,
    }
}

proof fn lemma_group_fits(s: Seq<u8>)
    requires
        s.len() <= 4,
        all_hex(s),
    ensures
        0 <= number(s, 16) <= 0xffff,
        s.len() <= 3 ==> number(s, 16) <= 0xfff,
        s.len() <= 2 ==> number(s, 16) <= 0xff,
        s.len() <= 1 ==> number(s, 16) <= 0xf,
        s.len() == 0 ==> number(s, 16) == 0,
    decreases s.len(),
{
    if s.len() > 0 {
        assert(is_hex(s[s.len() - 1]));
        assert(all_hex(s.drop_last()));
        lemma_group_fits(s.drop_last());
    }
}

fn parse_group(s: &Vec<u8>) -> (r: Option<u16>)
    ensures
        r == group_text(s@),
{
    if s.len() == 0 || s.len() > 4 {
        return None;
    }
    let mut n: u32 = 0;
    let mut i: usize = 0;
    assert(s@.take(0) =~= Seq::<u8>::empty());
    while i < s.len()
        invariant
            i <= s@.len() <= 4,
            n == number(s@.take(i as int), 16),
            forall|j: int| 0 <= j < i ==> is_hex(#[trigger] s@[j]),
        decreases s.len() - i,
    {
        let c: u8 = s[i];
        if !hex(c) {
            assert(!is_hex(s@[i as int]));
            return None;
        }
        proof {
            let t = s@.take(i + 1);
            assert(t.drop_last() =~= s@.take(i as int));
            assert(t.last() == c);
            lemma_group_fits(s@.take(i as int));
        }
        let d: u32 = if digit(c) {
            (c - 0x30) as u32
        } else if c <= 0x46 {
            (c - 0x41) as u32 + 10
        } else {
            (c - 0x61) as u32 + 10
        };
        n = n * 16 + d;
        i = i + 1;
    }
    proof {
        assert(s@.take(s@.len() as int) =~= s@);
        lemma_group_fits(s@);
    }
    Some(n as u16)
}

proof fn lemma_no_groups(p: Seq<Seq<u8>>, k: int)
    requires
        0 <= k < p.len(),
        group_text(p[k]) is None,
    ensures
        groups_of(p) is None,
    decreases p.len(),
{
    if k < p.len() - 1 {
        assert(p.drop_last()[k] == p[k]);
        lemma_no_groups(p.drop_last(), k);
    }
}

/// The groups of the first `to` pieces.
fn parse_groups(p: &Vec<Vec<u8>>, to: usize) -> (r: Option<Vec<u16>>)
    requires
        to <= p@.len(),
    ensures
        r matches Some(g) ==> groups_of(texts(p@).take(to as int)) == Some(g@),
        r is None ==> groups_of(texts(p@).take(to as int)) is None,
{
    let ghost t = texts(p@);
    let mut out: Vec<u16> = Vec::new();
    let mut i: usize = 0;
    assert(t.take(0) =~= Seq::<Seq<u8>>::empty());
    assert(out@ =~= Seq::<u16>::empty());
    while i < to
        invariant
            i <= to <= p@.len(),
            t == texts(p@),
            groups_of(t.take(i as int)) == Some(out@),
        decreases to - i,
    {
        proof {
            let n = t.take(i + 1);
            assert(n.drop_last() =~= t.take(i as int));
            assert(n.last() == p@[i as int]@);
        }
        match parse_group(&p[i]) {
            Some(x) => {
                out.push(x);
            },
            None => {
                proof {
                    assert(t.take(to as int)[i as int] == p@[i as int]@);
                    lemma_no_groups(t.take(to as int), i as int);
                }
                return None;
            },
        }
        i = i + 1;
    }
    Some(out)
}

fn parse_list(s: &Vec<u8>, dotted: bool) -> (r: Option<Vec<u16>>)
    ensures
        r matches Some(g) ==> list_text(s@, dotted) == Some(g@),
        r is None ==> list_text(s@, dotted) is None,
{
    if s.len() == 0 {
        let out: Vec<u16> = Vec::new();
        assert(out@ =~= Seq::<u16>::empty());
        return Some(out);
    }
    let p = split_pieces(s, 0x3a);
    let last: usize = p.len() - 1;
    assert(texts(p@).last() == p@[last as int]@);
    assert(texts(p@).take(last as int) =~= texts(p@).drop_last());
    assert(texts(p@).take(p@.len() as int) =~= texts(p@));
    match parse_v4(&p[last]) {
        Some(v) => {
            if !dotted {
                return None;
            }
            match parse_groups(&p, last) {
                Some(mut g) => {
                    g.push((v / 0x1_0000) as u16);
                    g.push((v % 0x1_0000) as u16);
                    Some(g)
                },
                None => None,
            }
        },
        None => parse_groups(&p, p.len()),
    }
}

fn find_double_colon(s: &Vec<u8>) -> (r: Option<usize>)
    ensures
        r matches Some(i) ==> double_colon(s@, 0) == i && i + 2 <= s.len(),
        r is None ==> double_colon(s@, 0) < 0,
{
    let mut i: usize = 0;
    while i < s.len() && s.len() - i >= 2
        invariant
            i <= s@.len(),
            double_colon(s@, 0) == double_colon(s@, i as int),
        decreases s.len() - i,
    {
        if s[i] == 0x3a && s[i + 1] == 0x3a {
            return Some(i);
        }
        i = i + 1;
    }
    None
}

proof fn lemma_groups_fit(g: Seq<u16>)
    requires
        g.len() <= 8,
    ensures
        0 <= from_groups(g),
        g.len() == 0 ==> from_groups(g) == 0,
        g.len() == 1 ==> from_groups(g) < 0x1_0000,
        g.len() == 2 ==> from_groups(g) < 0x1_0000_0000,
        g.len() == 3 ==> from_groups(g) < 0x1_0000_0000_0000,
        g.len() == 4 ==> from_groups(g) < 0x1_0000_0000_0000_0000,
        g.len() == 5 ==> from_groups(g) < 0x1_0000_0000_0000_0000_0000,
        g.len() == 6 ==> from_groups(g) < 0x1_0000_0000_0000_0000_0000_0000,
        g.len() == 7 ==> from_groups(g) < 0x1_0000_0000_0000_0000_0000_0000_0000,
        g.len() == 8 ==> from_groups(g) <= u128::MAX,
    decreases g.len(),
{
    if g.len() > 0 {
        lemma_groups_fit(g.drop_last());
    }
}

fn join_groups(g: &Vec<u16>) -> (r: u128)
    requires
        g@.len() == 8,
    ensures
        r == from_groups(g@),
{
    let mut n: u128 = 0;
    let mut i: usize = 0;
    assert(g@.take(0) =~= Seq::<u16>::empty());
    while i < 8
        invariant
            i <= 8,
            g@.len() == 8,
            n == from_groups(g@.take(i as int)),
        decreases 8 - i,
    {
        proof {
            let t = g@.take(i + 1);
            assert(t.drop_last() =~= g@.take(i as int));
            assert(t.last() == g@[i as int]);
            lemma_groups_fit(g@.take(i as int));
            lemma_groups_fit(t);
        }
        n = n * 0x1_0000 + g[i] as u128;
        i = i + 1;
    }
    assert(g@.take(8) =~= g@);
    n
}

fn parse_v6(s: &Vec<u8>) -> (r: Option<u128>)
    ensures
        r matches Some(n) ==> v6_groups(s@) is Some && n == from_groups(v6_groups(s@)->0),
        r is None ==> v6_groups(s@) is None,
{
    match find_double_colon(s) {
        None => match parse_list(s, true) {
            Some(g) => {
                if g.len() == 8 {
                    Some(join_groups(&g))
                } else {
                    None
                }
            },
            None => None,
        },
        Some(at) => {
            let head = copy_range(s.as_slice(), 0, at);
            let tail = copy_range(s.as_slice(), at + 2, s.len());
            assert(head@ =~= s@.take(at as int));
            assert(tail@ =~= s@.skip(at + 2));
            match (parse_list(&head, false), parse_list(&tail, true)) {
                (Some(mut h), Some(t)) => {
                    if h.len() > 7 || t.len() > 7 || h.len() + t.len() > 7 {
                        return None;
                    }
                    let ghost first = h@;
                    let mut i: usize = 0;
                    let missing: usize = 8 - h.len() - t.len();
                    while i < missing
                        invariant
                            i <= missing,
                            h@ == first + zeros(i as int),
                        decreases missing - i,
                    {
                        h.push(0);
                        assert(h@ =~= first + zeros(i + 1));
                        i = i + 1;
                    }
                    let mut j: usize = 0;
                    assert(h@ =~= first + zeros(missing as int) + t@.take(0));
                    while j < t.len()
                        invariant
                            j <= t@.len(),
                            h@ == first + zeros(missing as int) + t@.take(j as int),
                        decreases t.len() - j,
                    {
                        h.push(t[j]);
                        assert(h@ =~= first + zeros(missing as int) + t@.take(j + 1));
                        j = j + 1;
                    }
                    assert(t@.take(t@.len() as int) =~= t@);
                    Some(join_groups(&h))
                },
                _ => None,
            }
        },
    }
}

fn parse_ip(s: &Vec<u8>) -> (r: Option<IpAddr>)
    ensures
        r == ip_text(s@),
{
    match parse_v4(s) {
        Some(bits) => Some(IpAddr::V4(Ipv4Addr { bits })),
        None => match parse_v6(s) {
            Some(bits) => Some(IpAddr::V6(Ipv6Addr { bits })),
            None => None,
        },
    }
}

fn find_line_end(s: &[u8]) -> (r: Option<usize>)
    ensures
        r matches Some(i) ==> line_end(s@, 0, V1_MAX as int) == i && i + 2 <= s.len(),
        r is None ==> line_end(s@, 0, V1_MAX as int) < 0,
{
    let mut i: usize = 0;
    while i + 2 <= V1_MAX && i < s.len() && s.len() - i >= 2
        invariant
            i <= s@.len(),
            i <= V1_MAX,
            line_end(s@, 0, V1_MAX as int) == line_end(s@, i as int, V1_MAX as int),
        decreases V1_MAX - i,
    {
        if s[i] == 0x0d && s[i + 1] == 0x0a {
            return Some(i);
        }
        i = i + 1;
    }
    None
}

fn read_line(w: &Vec<Vec<u8>>, taken: usize) -> (r: ProxyParse)
    ensures
        r == v1_line(texts(w@), taken),
{
    let ghost t = texts(w@);
    assert(t.len() == w@.len());
    assert(forall|i: int| 0 <= i < w@.len() ==> #[trigger] t[i] == w@[i]@);
    let first = [0x50u8, 0x52, 0x4f, 0x58, 0x59];
    assert(first@ =~= v1_start().take(5));
    let unknown = [0x55u8, 0x4e, 0x4b, 0x4e, 0x4f, 0x57, 0x4e];
    assert(unknown@ =~= unknown_word());
    if w.len() == 0 || !same_octets(&w[0], &first) {
        return ProxyParse::NotProxy;
    }
    if w.len() >= 2 && same_octets(&w[1], &unknown) {
        return if w.len() == 2 {
            ProxyParse::Local(taken)
        } else {
            ProxyParse::NotProxy
        };
    }
    if w.len() != 6 {
        return ProxyParse::NotProxy;
    }
    let tcp4 = [0x54u8, 0x43, 0x50, 0x34];
    assert(tcp4@ =~= tcp_word(0x34));
    let tcp6 = [0x54u8, 0x43, 0x50, 0x36];
    assert(tcp6@ =~= tcp_word(0x36));
    match (parse_ip(&w[2]), parse_ip(&w[3]), parse_port(&w[4]), parse_port(&w[5])) {
        (Some(src), Some(dst), Some(port), Some(_)) => {
            let v6: bool = src.is_ipv6();
            let family_ok: bool = v6 == dst.is_ipv6() && if v6 {
                same_octets(&w[1], &tcp6)
            } else {
                same_octets(&w[1], &tcp4)
            };
            if family_ok && port != 0 {
                ProxyParse::Addr(SocketAddr::new(src, port), taken)
            } else {
                ProxyParse::NotProxy
            }
        },
        _ => ProxyParse::NotProxy,
    }
}

/// Reads the text form. It ends within 107 octets, or it is no header: what sends
/// no end of line cannot make the buffer grow.
fn parse_v1(buf: &[u8]) -> (r: ProxyParse)
    ensures
        r == v1_spec(buf@),
{
    match find_line_end(buf) {
        Some(end) => {
            let w = split_words(buf, end);
            read_line(&w, end + 2)
        },
        None => {
            if buf.len() >= V1_MAX {
                ProxyParse::NotProxy
            } else {
                ProxyParse::Incomplete
            }
        },
    }
}

proof fn lemma_be_value_fits(s: Seq<u8>)
    ensures
        0 <= be_value(s) < crate::addr::pow256(s.len()),
    decreases s.len(),
{
    if s.len() > 0 {
        lemma_be_value_fits(s.drop_last());
    }
}

/// The number that the octets of a range write, most significant first.
pub(crate) fn read_be(s: &[u8], from: usize, n: usize) -> (r: u128)
    requires
        from + n <= s.len(),
        n <= 16,
    ensures
        r == be_value(s@.subrange(from as int, from + n)),
        r < crate::addr::pow256(n as nat),
{
    let ghost t = s@.subrange(from as int, from + n);
    let mut v: u128 = 0;
    let mut i: usize = 0;
    assert(t.take(0) =~= Seq::<u8>::empty());
    proof {
        reveal_with_fuel(crate::addr::pow256, 17);
        lemma_be_value_fits(t);
    }
    while i < n
        invariant
            i <= n <= 16,
            from + n <= s.len(),
            t == s@.subrange(from as int, from + n),
            v == be_value(t.take(i as int)),
        decreases n - i,
    {
        proof {
            let u = t.take(i + 1);
            assert(u.drop_last() =~= t.take(i as int));
            assert(u.last() == t[i as int]);
            lemma_be_value_fits(t.take(i as int));
            lemma_be_value_fits(u);
            crate::addr::lemma_pow256_monotone((i + 1) as nat, 16);
            reveal_with_fuel(crate::addr::pow256, 17);
        }
        v = v * 256 + s[from + i] as u128;
        i = i + 1;
    }
    assert(t.take(n as int) =~= t);
    v
}

/// Reads the binary form. Only TCP over IPv4 and IPv6 is taken.
fn parse_v2(buf: &[u8]) -> (r: ProxyParse)
    ensures
        r == v2_spec(buf@),
{
    if buf.len() < 16 {
        return ProxyParse::Incomplete;
    }
    if buf[12] / 16 != 2 || buf[12] % 16 > 1 {
        return ProxyParse::NotProxy;
    }
    let total: usize = 16 + buf[14] as usize * 256 + buf[15] as usize;
    if buf.len() < total {
        return ProxyParse::Incomplete;
    }
    if buf[12] % 16 == 0 {
        return ProxyParse::Local(total);
    }
    proof {
        reveal_with_fuel(crate::addr::pow256, 17);
    }
    if buf[13] == 0x11 && total >= 28 {
        let bits: u128 = read_be(buf, 16, 4);
        let port: u16 = buf[24] as u16 * 256 + buf[25] as u16;
        if port == 0 {
            return ProxyParse::NotProxy;
        }
        return ProxyParse::Addr(
            SocketAddr::new(IpAddr::V4(Ipv4Addr { bits: bits as u32 }), port),
            total,
        );
    }
    if buf[13] == 0x21 && total >= 52 {
        let bits: u128 = read_be(buf, 16, 16);
        let port: u16 = buf[48] as u16 * 256 + buf[49] as u16;
        if port == 0 {
            return ProxyParse::NotProxy;
        }
        return ProxyParse::Addr(SocketAddr::new(IpAddr::V6(Ipv6Addr { bits }), port), total);
    }
    ProxyParse::NotProxy
}

/// Whether the first octets of both are the same, as far as the shorter one goes.
fn agree(a: &[u8], b: &[u8]) -> (r: bool)
    ensures
        r == (forall|i: int| 0 <= i < a@.len() && i < b@.len() ==> a@[i] == b@[i]),
{
    let mut i: usize = 0;
    while i < a.len() && i < b.len()
        invariant
            i <= a@.len(),
            i <= b@.len(),
            forall|j: int| 0 <= j < i ==> a@[j] == b@[j],
        decreases a.len() - i,
    {
        if a[i] != b[i] {
            return false;
        }
        i = i + 1;
    }
    true
}

proof fn lemma_agreement(a: Seq<u8>, b: Seq<u8>)
    ensures
        ({
            let same = forall|i: int| 0 <= i < a.len() && i < b.len() ==> a[i] == b[i];
            &&& b.len() <= a.len() ==> same == starts_with(a, b)
            &&& a.len() <= b.len() ==> same == starts_with(b, a)
        }),
{
    let same = forall|i: int| 0 <= i < a.len() && i < b.len() ==> a[i] == b[i];
    if b.len() <= a.len() {
        if same {
            assert(a.take(b.len() as int) =~= b);
        } else if starts_with(a, b) {
            assert forall|i: int| 0 <= i < a.len() && i < b.len() implies a[i] == b[i] by {
                assert(a.take(b.len() as int)[i] == a[i]);
            }
        }
    }
    if a.len() <= b.len() {
        if same {
            assert(b.take(a.len() as int) =~= a);
        } else if starts_with(b, a) {
            assert forall|i: int| 0 <= i < a.len() && i < b.len() implies a[i] == b[i] by {
                assert(b.take(a.len() as int)[i] == b[i]);
            }
        }
    }
}

/// Reads the start of a connection as a header.
pub fn parse(buf: &[u8]) -> (r: ProxyParse)
    ensures
        r == proxy_spec(buf@),
{
    let text = [0x50u8, 0x52, 0x4f, 0x58, 0x59, 0x20];
    assert(text@ =~= v1_start());
    let binary = [0x0du8, 0x0a, 0x0d, 0x0a, 0x00, 0x0d, 0x0a, 0x51, 0x55, 0x49, 0x54, 0x0a];
    assert(binary@ =~= v2_signature());
    proof {
        lemma_agreement(buf@, text@);
        lemma_agreement(buf@, binary@);
    }
    if agree(buf, &binary) {
        if buf.len() >= 12 {
            return parse_v2(buf);
        }
        proof {
            if starts_with(buf@, v1_start()) {
                assert(buf@.take(6)[0] == buf@[0]);
            }
        }
        return ProxyParse::Incomplete;
    }
    if agree(buf, &text) {
        if buf.len() >= 6 {
            return parse_v1(buf);
        }
        return ProxyParse::Incomplete;
    }
    ProxyParse::NotProxy
}

proof fn lemma_line_end(s: Seq<u8>, from: int, limit: int)
    requires
        from >= 0,
    ensures
        line_end(s, from, limit) >= 0 ==> from <= line_end(s, from, limit) && line_end(
            s,
            from,
            limit,
        ) + 2 <= s.len() && line_end(s, from, limit) + 2 <= limit,
    decreases limit - from,
{
    if from + 2 <= limit && from + 2 <= s.len() && !(s[from] == 0x0d && s[from + 1] == 0x0a) {
        lemma_line_end(s, from + 1, limit);
    }
}

proof fn lemma_line_end_stays(s: Seq<u8>, more: Seq<u8>, from: int, limit: int)
    requires
        from >= 0,
        line_end(s, from, limit) >= 0 || s.len() >= limit,
    ensures
        line_end(s + more, from, limit) == line_end(s, from, limit),
    decreases limit - from,
{
    if from + 2 <= limit && from + 2 <= s.len() {
        assert((s + more)[from] == s[from]);
        assert((s + more)[from + 1] == s[from + 1]);
        if !(s[from] == 0x0d && s[from + 1] == 0x0a) {
            lemma_line_end_stays(s, more, from + 1, limit);
        }
    }
}

proof fn lemma_start_stays(s: Seq<u8>, more: Seq<u8>, p: Seq<u8>)
    requires
        p.len() <= s.len(),
    ensures
        starts_with(s + more, p) == starts_with(s, p),
{
    assert((s + more).take(p.len() as int) =~= s.take(p.len() as int));
}

/// A header takes no more octets than there are.
pub proof fn law_a_header_is_within_what_was_read(s: Seq<u8>)
    ensures
        proxy_spec(s) matches ProxyParse::Addr(_, n) ==> n <= s.len(),
        proxy_spec(s) matches ProxyParse::Local(n) ==> n <= s.len(),
{
    lemma_line_end(s, 0, V1_MAX as int);
}

/// What is decided stays decided: octets that come later change neither the
/// verdict nor the length of the header.
pub proof fn law_later_octets_change_no_verdict(s: Seq<u8>, more: Seq<u8>)
    requires
        !(proxy_spec(s) is Incomplete),
    ensures
        proxy_spec(s + more) == proxy_spec(s),
{
    let t = s + more;
    lemma_agreement(s, v1_start());
    lemma_agreement(s, v2_signature());
    lemma_agreement(t, v1_start());
    lemma_agreement(t, v2_signature());
    if starts_with(s, v2_signature()) {
        lemma_start_stays(s, more, v2_signature());
        assert(forall|i: int| 0 <= i < s.len() ==> t[i] == s[i]);
        if s.len() >= 32 {
            assert(t.subrange(16, 32) =~= s.subrange(16, 32));
        }
        if s.len() >= 20 {
            assert(t.subrange(16, 20) =~= s.subrange(16, 20));
        }
    } else if starts_with(s, v1_start()) {
        lemma_start_stays(s, more, v1_start());
        assert(s.take(6)[0] == 0x50);
        assert(t[0] == 0x50);
        if starts_with(t, v2_signature()) {
            assert(t.take(12)[0] == t[0]);
        }
        lemma_line_end(s, 0, V1_MAX as int);
        lemma_line_end_stays(s, more, 0, V1_MAX as int);
        let end = line_end(s, 0, V1_MAX as int);
        if end >= 0 {
            assert(t.take(end) =~= s.take(end));
        }
    } else {
        let a = choose|i: int| 0 <= i < s.len() && i < 12 && s[i] != v2_signature()[i];
        let b = choose|i: int| 0 <= i < s.len() && i < 6 && s[i] != v1_start()[i];
        assert(t[a] == s[a]);
        assert(t[b] == s[b]);
    }
}

proof fn lemma_line_end_at_last(buf: Seq<u8>, b: u8, from: int, limit: int)
    requires
        from >= 0,
        line_end(buf, from, limit) < 0,
        line_end(buf.push(b), from, limit) >= 0,
    ensures
        line_end(buf.push(b), from, limit) + 2 == buf.len() + 1,
    decreases limit - from,
{
    let t = buf.push(b);
    if from + 2 <= buf.len() {
        assert(t[from] == buf[from]);
        assert(t[from + 1] == buf[from + 1]);
        lemma_line_end_at_last(buf, b, from + 1, limit);
    } else {
        lemma_line_end(t, from, limit);
    }
}

/// Where one more octet completes a header, the header ends with it.
#[verifier::spinoff_prover]
pub(crate) proof fn lemma_verdict_needs_last_octet(buf: Seq<u8>, b: u8)
    requires
        proxy_spec(buf) is Incomplete,
        proxy_spec(buf.push(b)) is Addr || proxy_spec(buf.push(b)) is Local,
    ensures
        proxy_spec(buf.push(b)) matches ProxyParse::Addr(_, n) ==> n == buf.len() + 1,
        proxy_spec(buf.push(b)) matches ProxyParse::Local(n) ==> n == buf.len() + 1,
{
    let t = buf.push(b);
    assert(forall|i: int| 0 <= i < buf.len() ==> t[i] == buf[i]);
    law_a_header_is_within_what_was_read(t);
    lemma_agreement(t, v1_start());
    lemma_agreement(t, v2_signature());
    lemma_agreement(buf, v1_start());
    lemma_agreement(buf, v2_signature());
    if starts_with(t, v2_signature()) {
        if buf.len() >= 16 {
            assert(starts_with(buf, v2_signature()));
        }
    } else {
        assert(starts_with(t, v1_start()));
        if buf.len() >= 6 {
            assert(starts_with(buf, v1_start()));
            if starts_with(buf, v2_signature()) {
                assert(buf.take(12)[0] == buf[0]);
                assert(buf.take(6)[0] == buf[0]);
            }
            lemma_line_end_at_last(buf, b, 0, V1_MAX as int);
        } else {
            lemma_line_end(t, 0, V1_MAX as int);
            let end = line_end(t, 0, V1_MAX as int);
            assert(end + 2 <= 6);
            assert(t.take(6)[0] == 0x50 && t.take(6)[1] == 0x52 && t.take(6)[2] == 0x4f
                && t.take(6)[3] == 0x58 && t.take(6)[4] == 0x59 && t.take(6)[5] == 0x20);
            lemma_line_end_found(t, 0, V1_MAX as int);
            assert(t[end] == 0x0d);
        }
    }
}

proof fn lemma_line_end_found(s: Seq<u8>, from: int, limit: int)
    requires
        from >= 0,
        line_end(s, from, limit) >= 0,
    ensures
        s[line_end(s, from, limit)] == 0x0d,
    decreases limit - from,
{
    if !(s[from] == 0x0d && s[from + 1] == 0x0a) {
        lemma_line_end_found(s, from + 1, limit);
    }
}

/// As long as the verdict is open, little was read: less than the longest text
/// header, or less than a binary header can be.
pub proof fn law_an_open_verdict_is_short(s: Seq<u8>)
    requires
        proxy_spec(s) is Incomplete,
    ensures
        s.len() < 16 + 0x1_0000,
        !starts_with(s, v2_signature()) ==> s.len() < V1_MAX,
{
}

/// Words behind white space follow those before it.
proof fn lemma_words_join(a: Seq<u8>, gap: u8, b: Seq<u8>)
    requires
        is_space(gap),
    ensures
        words(a.push(gap) + b) == words(a) + words(b),
    decreases b.len(),
{
    let s = a.push(gap) + b;
    if b.len() == 0 {
        assert(s =~= a.push(gap));
        assert(s.drop_last() =~= a);
        assert(words(a) + words(b) =~= words(a));
    } else {
        let before = b.drop_last();
        let c = b.last();
        lemma_words_join(a, gap, before);
        assert(s.drop_last() =~= a.push(gap) + before);
        assert(s.last() == c);
        if is_space(c) {
        } else if before.len() == 0 {
            assert(s.drop_last().last() == gap);
            assert(words(before) =~= Seq::<Seq<u8>>::empty());
            assert(words(s) =~= words(a) + words(b));
        } else {
            assert(s.drop_last().last() == before.last());
            if is_space(before.last()) {
                assert(words(s) =~= words(a) + words(b));
            } else {
                lemma_words_nonempty(before);
                assert(words(s) =~= words(a) + words(b));
            }
        }
    }
}

/// No white space stands in it, and it is not empty.
pub open spec fn is_one_word(s: Seq<u8>) -> bool {
    s.len() > 0 && forall|i: int|
        0 <= i < s.len() ==> #[trigger] s[i] != 32 && s[i] != 9 && s[i] != 10 && s[i] != 12
            && s[i] != 13
}

proof fn lemma_one_word(s: Seq<u8>)
    requires
        is_one_word(s),
    ensures
        words(s) == seq![s],
    decreases s.len(),
{
    let m = s.drop_last();
    assert(s.last() == s[s.len() - 1]);
    assert(!is_space(s.last()));
    if m.len() == 0 {
        assert(s =~= seq![s.last()]);
        assert(words(m) =~= Seq::<Seq<u8>>::empty());
        assert(words(s) =~= seq![s]);
    } else {
        assert(is_one_word(m));
        lemma_one_word(m);
        assert(m.last() == s[s.len() - 2]);
        assert(m.push(s.last()) =~= s);
        assert(words(s) =~= seq![s]);
    }
}

/// White space parts words: what stands before it and behind it gives its words in this
/// order, and a stretch without any is one word as it stands.
pub proof fn law_words_stand_between_white_space(a: Seq<u8>, gap: u8, b: Seq<u8>)
    requires
        gap == 32 || gap == 9 || gap == 10 || gap == 12 || gap == 13,
    ensures
        words(a.push(gap) + b) == words(a) + words(b),
        is_one_word(a) ==> words(a) == seq![a],
        words(Seq::empty()).len() == 0,
{
    lemma_words_join(a, gap, b);
    if is_one_word(a) {
        lemma_one_word(a);
    }
}

proof fn lemma_pieces_join(a: Seq<u8>, separator: u8, b: Seq<u8>)
    ensures
        pieces(a.push(separator) + b, separator) == pieces(a, separator) + pieces(b, separator),
        pieces(b, separator).len() > 0,
    decreases b.len(),
{
    let s = a.push(separator) + b;
    if b.len() == 0 {
        assert(s =~= a.push(separator));
        assert(s.drop_last() =~= a);
        assert(pieces(s, separator) =~= pieces(a, separator) + pieces(b, separator));
    } else {
        lemma_pieces_join(a, separator, b.drop_last());
        assert(s.drop_last() =~= a.push(separator) + b.drop_last());
        assert(s.last() == b.last());
        assert(pieces(s, separator) =~= pieces(a, separator) + pieces(b, separator));
    }
}

proof fn lemma_one_piece(s: Seq<u8>, separator: u8)
    requires
        !s.contains(separator),
    ensures
        pieces(s, separator) == seq![s],
    decreases s.len(),
{
    if s.len() > 0 {
        let m = s.drop_last();
        assert(s[s.len() - 1] == s.last());
        assert(!m.contains(separator)) by {
            if m.contains(separator) {
                let i = choose|i: int| 0 <= i < m.len() && m[i] == separator;
                assert(s[i] == separator);
            }
        }
        lemma_one_piece(m, separator);
        assert(m.push(s.last()) =~= s);
        assert(pieces(s, separator) =~= seq![s]);
    } else {
        assert(s =~= Seq::<u8>::empty());
        assert(pieces(s, separator) =~= seq![s]);
    }
}

/// The texts with the separator between them.
pub open spec fn joined(p: Seq<Seq<u8>>, separator: u8) -> Seq<u8>
    decreases p.len(),
{
    if p.len() == 0 {
        Seq::empty()
    } else if p.len() == 1 {
        p[0]
    } else {
        joined(p.drop_last(), separator).push(separator) + p.last()
    }
}

/// Taking apart what was joined gives the parts back.
pub proof fn law_pieces_undo_joining(p: Seq<Seq<u8>>, separator: u8)
    requires
        p.len() > 0,
        forall|i: int| 0 <= i < p.len() ==> !(#[trigger] p[i]).contains(separator),
    ensures
        pieces(joined(p, separator), separator) == p,
    decreases p.len(),
{
    if p.len() == 1 {
        lemma_one_piece(p[0], separator);
        assert(pieces(joined(p, separator), separator) =~= p);
    } else {
        let q = p.drop_last();
        assert forall|i: int| 0 <= i < q.len() implies !(#[trigger] q[i]).contains(separator) by {
            assert(q[i] == p[i]);
        }
        law_pieces_undo_joining(q, separator);
        assert(!p[p.len() - 1].contains(separator));
        lemma_pieces_join(joined(q, separator), separator, p.last());
        lemma_one_piece(p.last(), separator);
        assert(pieces(joined(p, separator), separator) =~= p);
    }
}

/// A further digit counts ones, and those before it count as many times as much as the base
/// says. The digits are `0` to `9`, and for 10 to 15 the letters `A` to `F`, small or not.
pub proof fn law_how_digits_are_read(s: Seq<u8>, c: u8, base: int)
    ensures
        number(Seq::empty(), base) == 0,
        number(s.push(c), base) == number(s, base) * base + hex_digit(c),
        48 <= c <= 57 ==> is_digit(c) && is_hex(c) && hex_digit(c) == c - 48,
        65 <= c <= 70 ==> !is_digit(c) && is_hex(c) && hex_digit(c) == c - 55,
        97 <= c <= 102 ==> !is_digit(c) && is_hex(c) && hex_digit(c) == c - 87,
        !(48 <= c <= 57) && !(65 <= c <= 70) && !(97 <= c <= 102) ==> !is_digit(c) && !is_hex(c),
{
    assert(s.push(c).drop_last() =~= s);
}

/// The numbers of an IPv4 address are written without leading zeros and do not exceed 255.
pub proof fn law_how_an_octet_is_written(h: u8, t: u8, u: u8, s: Seq<u8>)
    requires
        h <= 9,
        t <= 9,
        u <= 9,
    ensures
        octet_text(seq![(48 + u) as u8]) == Some(u),
        t >= 1 ==> octet_text(seq![(48 + t) as u8, (48 + u) as u8]) == Some((10 * t + u) as u8),
        t == 0 ==> octet_text(seq![(48 + t) as u8, (48 + u) as u8]) is None,
        ({
            let n = 100 * h + 10 * t + u;
            let o = octet_text(seq![(48 + h) as u8, (48 + t) as u8, (48 + u) as u8]);
            &&& h >= 1 && n <= 255 ==> o == Some(n as u8)
            &&& h == 0 || n > 255 ==> o is None
        }),
        s.len() == 0 || s.len() > 3 ==> octet_text(s) is None,
        (exists|i: int| 0 <= i < s.len() && !(48 <= #[trigger] s[i] <= 57)) ==> octet_text(s) is None,
{
    let a = seq![(48 + u) as u8];
    let b = seq![(48 + t) as u8, (48 + u) as u8];
    let c = seq![(48 + h) as u8, (48 + t) as u8, (48 + u) as u8];
    reveal_with_fuel(number, 4);
    assert(b.drop_last() =~= seq![(48 + t) as u8]);
    assert(c.drop_last() =~= seq![(48 + h) as u8, (48 + t) as u8]);
    assert(c.drop_last().drop_last() =~= seq![(48 + h) as u8]);
    assert(number(a, 10) == u);
    assert(number(b, 10) == 10 * t + u);
    assert(number(c, 10) == 100 * h + 10 * t + u);
}

/// Four numbers with dots between them are an IPv4 address, the first of them the most
/// significant; with one that is no such number they are none.
pub proof fn law_how_an_ipv4_address_is_written(p: Seq<Seq<u8>>)
    requires
        p.len() == 4,
        forall|i: int| 0 <= i < 4 ==> !(#[trigger] p[i]).contains(46),
    ensures
        (forall|i: int| 0 <= i < 4 ==> octet_text(#[trigger] p[i]) is Some) ==> v4_text(
            joined(p, 46),
        ) == Some(
            (octet_text(p[0])->0 * 0x100_0000 + octet_text(p[1])->0 * 0x1_0000 + octet_text(
                p[2],
            )->0 * 0x100 + octet_text(p[3])->0) as u32,
        ),
        (exists|i: int| 0 <= i < 4 && octet_text(#[trigger] p[i]) is None) ==> v4_text(
            joined(p, 46),
        ) is None,
{
    law_pieces_undo_joining(p, 46);
    if forall|i: int| 0 <= i < 4 ==> octet_text(#[trigger] p[i]) is Some {
        assert(octet_text(p[0]) is Some && octet_text(p[1]) is Some && octet_text(p[2]) is Some
            && octet_text(p[3]) is Some);
    }
    if exists|i: int| 0 <= i < 4 && octet_text(#[trigger] p[i]) is None {
        let i = choose|i: int| 0 <= i < 4 && octet_text(#[trigger] p[i]) is None;
        assert(i == 0 || i == 1 || i == 2 || i == 3);
    }
}

/// A port is a decimal number of any length up to 65535; a plus may lead it.
pub proof fn law_how_a_port_is_written(s: Seq<u8>, n: u16)
    ensures
        s.len() > 0 && (forall|i: int| 0 <= i < s.len() ==> 48 <= #[trigger] s[i] <= 57) ==> {
            &&& number(s, 10) <= 65535 ==> port_text(s) == Some(number(s, 10) as u16) && port_text(
                seq![43u8] + s,
            ) == Some(number(s, 10) as u16)
            &&& number(s, 10) > 65535 ==> port_text(s) is None && port_text(seq![43u8] + s) is None
        },
        (exists|i: int| 1 <= i < s.len() && !(48 <= #[trigger] s[i] <= 57)) ==> port_text(s) is None,
        s.len() > 0 && s[0] != 43 && !(48 <= s[0] <= 57) ==> port_text(s) is None,
        port_text(Seq::empty()) is None,
        port_text(seq![43u8]) is None,
{
    let plus = seq![43u8] + s;
    assert(plus.skip(1) =~= s);
    assert(seq![43u8].skip(1) =~= Seq::<u8>::empty());
    if s.len() > 0 && (forall|i: int| 0 <= i < s.len() ==> 48 <= #[trigger] s[i] <= 57) {
        assert(s[0] <= 57);
        assert(all_digits(s));
    }
    if exists|i: int| 1 <= i < s.len() && !(48 <= #[trigger] s[i] <= 57) {
        let i = choose|i: int| 1 <= i < s.len() && !(48 <= #[trigger] s[i] <= 57);
        assert(s.skip(1)[i - 1] == s[i]);
        assert(!is_digit(s[i]));
        assert(!all_digits(s));
        assert(!all_digits(s.skip(1)));
    }
    if s.len() > 0 && s[0] != 43 && !(48 <= s[0] <= 57) {
        assert(!is_digit(s[0]));
    }
}

/// Each of the texts is a group: one to four hexadecimal digits.
pub open spec fn are_groups(p: Seq<Seq<u8>>) -> bool {
    forall|i: int|
        0 <= i < p.len() ==> 1 <= (#[trigger] p[i]).len() <= 4 && forall|j: int|
            0 <= j < p[i].len() ==> 48 <= #[trigger] p[i][j] <= 57 || 65 <= p[i][j] <= 70 || 97
                <= p[i][j] <= 102
}

/// The numbers that groups write.
pub open spec fn group_values(p: Seq<Seq<u8>>) -> Seq<u16> {
    Seq::new(p.len(), |i: int| number(p[i], 16) as u16)
}

proof fn lemma_groups(p: Seq<Seq<u8>>)
    requires
        are_groups(p),
    ensures
        groups_of(p) == Some(group_values(p)),
    decreases p.len(),
{
    if p.len() == 0 {
        assert(group_values(p) =~= Seq::<u16>::empty());
    } else {
        let q = p.drop_last();
        assert forall|i: int| 0 <= i < q.len() implies 1 <= (#[trigger] q[i]).len() <= 4 && forall|
            j: int,
        |
            0 <= j < q[i].len() ==> 48 <= #[trigger] q[i][j] <= 57 || 65 <= q[i][j] <= 70 || 97
                <= q[i][j] <= 102 by {
            assert(q[i] == p[i]);
        }
        lemma_groups(q);
        let last = p[p.len() - 1];
        assert(p.last() == last);
        assert forall|j: int| 0 <= j < last.len() implies is_hex(#[trigger] last[j]) by {
            assert(48 <= last[j] <= 57 || 65 <= last[j] <= 70 || 97 <= last[j] <= 102);
        }
        assert(group_values(q).push(number(last, 16) as u16) =~= group_values(p));
    }
}

proof fn lemma_group_has_no(p: Seq<Seq<u8>>, c: u8)
    requires
        are_groups(p),
        c == 46 || c == 58,
    ensures
        forall|i: int| 0 <= i < p.len() ==> !(#[trigger] p[i]).contains(c),
{
    assert forall|i: int| 0 <= i < p.len() implies !(#[trigger] p[i]).contains(c) by {
        if p[i].contains(c) {
            let j = choose|j: int| 0 <= j < p[i].len() && p[i][j] == c;
            assert(48 <= p[i][j] <= 57 || 65 <= p[i][j] <= 70 || 97 <= p[i][j] <= 102);
        }
    }
}

proof fn lemma_list(p: Seq<Seq<u8>>, dotted: bool)
    requires
        are_groups(p),
    ensures
        list_text(joined(p, 58), dotted) == Some(group_values(p)),
        p.len() > 0 ==> joined(p, 58).len() > 0 && joined(p, 58)[0] != 58 && joined(p, 58).last()
            != 58,
        p.len() == 0 ==> joined(p, 58).len() == 0,
        forall|i: int|
            0 <= i < joined(p, 58).len() - 1 && #[trigger] joined(p, 58)[i] == 58 ==> joined(
                p,
                58,
            )[i + 1] != 58,
{
    lemma_groups(p);
    lemma_group_has_no(p, 58);
    lemma_group_has_no(p, 46);
    lemma_no_pair(p);
    if p.len() == 0 {
        assert(group_values(p) =~= Seq::<u16>::empty());
    } else {
        law_pieces_undo_joining(p, 58);
        let last = p[p.len() - 1];
        assert(!last.contains(46));
        lemma_one_piece(last, 46);
        assert(v4_text(p.last()) is None);
    }
}

proof fn lemma_no_pair(p: Seq<Seq<u8>>)
    requires
        are_groups(p),
    ensures
        p.len() > 0 ==> joined(p, 58).len() > 0 && joined(p, 58)[0] != 58 && joined(p, 58).last()
            != 58,
        forall|i: int|
            0 <= i < joined(p, 58).len() - 1 && #[trigger] joined(p, 58)[i] == 58 ==> joined(
                p,
                58,
            )[i + 1] != 58,
    decreases p.len(),
{
    lemma_group_has_no(p, 58);
    let s = joined(p, 58);
    if p.len() >= 1 {
        let last = p[p.len() - 1];
        assert(!last.contains(58));
        assert(forall|j: int| 0 <= j < last.len() ==> #[trigger] last[j] != 58) by {
            assert forall|j: int| 0 <= j < last.len() implies #[trigger] last[j] != 58 by {
                if last[j] == 58 {
                    assert(last.contains(58));
                }
            }
        }
        assert(1 <= last.len());
        if p.len() >= 2 {
            let q = p.drop_last();
            assert forall|i: int| 0 <= i < q.len() implies 1 <= (#[trigger] q[i]).len() <= 4
                && forall|j: int|
                0 <= j < q[i].len() ==> 48 <= #[trigger] q[i][j] <= 57 || 65 <= q[i][j] <= 70 || 97
                    <= q[i][j] <= 102 by {
                assert(q[i] == p[i]);
            }
            lemma_no_pair(q);
            let t = joined(q, 58);
            assert(s == t.push(58) + last);
            assert(s.last() == last.last());
            assert(last.last() == last[last.len() - 1]);
            assert forall|i: int| 0 <= i < s.len() - 1 && #[trigger] s[i] == 58 implies s[i + 1]
                != 58 by {
                if i < t.len() - 1 {
                    assert(t[i] == 58);
                    assert(t[i + 1] != 58);
                } else if i == t.len() - 1 {
                    assert(t.last() == t[i]);
                } else if i == t.len() {
                    assert(s[i + 1] == last[0]);
                } else {
                    assert(s[i] == last[i - t.len() - 1]);
                }
            }
        } else {
            assert(s == last);
        }
    }
}

proof fn lemma_double_colon(s: Seq<u8>, from: int, at: int)
    requires
        0 <= from <= at,
        at + 2 <= s.len(),
        s[at] == 58,
        s[at + 1] == 58,
        forall|i: int| from <= i < at && #[trigger] s[i] == 58 ==> s[i + 1] != 58,
    ensures
        double_colon(s, from) == at,
    decreases at - from,
{
    if from < at {
        assert(!(s[from] == 58 && s[from + 1] == 58));
        lemma_double_colon(s, from + 1, at);
    }
}

proof fn lemma_no_double_colon(s: Seq<u8>, from: int)
    requires
        0 <= from,
        forall|i: int| from <= i < s.len() - 1 && #[trigger] s[i] == 58 ==> s[i + 1] != 58,
    ensures
        double_colon(s, from) == -1,
    decreases s.len() - from,
{
    if from + 2 <= s.len() {
        assert(!(s[from] == 58 && s[from + 1] == 58));
        lemma_no_double_colon(s, from + 1);
    }
}

/// Eight groups with colons between them are an IPv6 address, and so are seven or fewer
/// with a pair of colons in one place, which stands for as many groups of zeros as are
/// missing. Without such a pair no other number of groups is one.
pub proof fn law_how_an_ipv6_address_is_written(h: Seq<Seq<u8>>, t: Seq<Seq<u8>>)
    requires
        are_groups(h),
        are_groups(t),
    ensures
        h.len() == 8 ==> v6_groups(joined(h, 58)) == Some(group_values(h)),
        h.len() != 8 ==> v6_groups(joined(h, 58)) is None,
        ({
            let s = joined(h, 58) + seq![58u8, 58u8] + joined(t, 58);
            let missing = 8 - h.len() - t.len();
            &&& missing >= 1 ==> {
                &&& v6_groups(s) matches Some(g)
                &&& g.len() == 8
                &&& forall|i: int| 0 <= i < h.len() ==> #[trigger] g[i] == number(h[i], 16) as u16
                &&& forall|i: int| h.len() <= i < h.len() + missing ==> #[trigger] g[i] == 0
                &&& forall|i: int|
                    h.len() + missing <= i < 8 ==> #[trigger] g[i] == number(
                        t[i - h.len() - missing],
                        16,
                    ) as u16
            }
            &&& missing < 1 ==> v6_groups(s) is None
        }),
{
    lemma_list(h, true);
    lemma_list(h, false);
    lemma_list(t, true);
    let a = joined(h, 58);
    let b = joined(t, 58);
    lemma_no_double_colon(a, 0);
    let s = a + seq![58u8, 58u8] + b;
    let at = a.len() as int;
    assert(s[at] == 58 && s[at + 1] == 58);
    assert forall|i: int| 0 <= i < at && #[trigger] s[i] == 58 implies s[i + 1] != 58 by {
        assert(s[i] == a[i]);
        if i < at - 1 {
            assert(s[i + 1] == a[i + 1]);
        } else {
            assert(a.last() == a[i]);
        }
    }
    lemma_double_colon(s, 0, at);
    assert(s.take(at) =~= a);
    assert(s.skip(at + 2) =~= b);
}

/// The groups of an IPv6 address count like digits, the first of them the most.
pub proof fn law_groups_count_like_digits(g: Seq<u16>, x: u16)
    ensures
        from_groups(Seq::empty()) == 0,
        from_groups(g.push(x)) == from_groups(g) * 65536 + x,
        g.len() == 8 ==> 0 <= from_groups(g) <= u128::MAX,
{
    assert(g.push(x).drop_last() =~= g);
    if g.len() == 8 {
        lemma_groups_fit(g);
    }
}

proof fn lemma_line_end_is(s: Seq<u8>, from: int, at: int, limit: int)
    requires
        0 <= from <= at,
        at + 2 <= limit,
        at + 2 <= s.len(),
        s[at] == 13,
        s[at + 1] == 10,
        forall|i: int| from <= i < at ==> #[trigger] s[i] != 13,
    ensures
        line_end(s, from, limit) == at,
    decreases at - from,
{
    if from < at {
        assert(s[from] != 13);
        lemma_line_end_is(s, from + 1, at, limit);
    }
}

/// A text header of at most 107 octets, with one space between its words and an end of line
/// behind them.
pub open spec fn text_header(
    family: Seq<u8>,
    source: Seq<u8>,
    target: Seq<u8>,
    source_port: Seq<u8>,
    target_port: Seq<u8>,
) -> Seq<u8> {
    seq![80u8, 82, 79, 88, 89].push(32) + (family.push(32) + (source.push(32) + (target.push(32) + (
    source_port.push(32) + (target_port + seq![13u8, 10])))))
}

proof fn lemma_text_header(
    family: Seq<u8>,
    source: Seq<u8>,
    target: Seq<u8>,
    source_port: Seq<u8>,
    target_port: Seq<u8>,
    more: Seq<u8>,
)
    requires
        is_one_word(family),
        is_one_word(source),
        is_one_word(target),
        is_one_word(source_port),
        is_one_word(target_port),
        text_header(family, source, target, source_port, target_port).len() <= 107,
    ensures
        ({
            let header = text_header(family, source, target, source_port, target_port);
            proxy_spec(header + more) == v1_line(
                seq![v1_start().take(5), family, source, target, source_port, target_port],
                header.len() as usize,
            )
        }),
{
    let start = seq![80u8, 82, 79, 88, 89];
    let header = text_header(family, source, target, source_port, target_port);
    let line = header.take(header.len() - 2);
    let s = header + more;
    lemma_text_words(family, source, target, source_port, target_port);
    let at = line.len() as int;
    assert forall|i: int| 0 <= i < at implies #[trigger] s[i] != 13 by {
        assert(s[i] == line[i]);
    }
    assert(s[at] == header[at] && s[at + 1] == header[at + 1]);
    lemma_line_end_is(s, 0, at, 107);
    assert(s.take(at) =~= line);
    assert(s.take(6) =~= header.take(6));
    assert(s[0] == header.take(6)[0]);
    assert(!starts_with(s, v2_signature())) by {
        if starts_with(s, v2_signature()) {
            assert(s.take(12)[0] == s[0]);
            assert(v2_signature()[0] == 13);
        }
    }
    assert(v1_start().take(5) =~= start);
}

proof fn lemma_text_words(
    family: Seq<u8>,
    source: Seq<u8>,
    target: Seq<u8>,
    source_port: Seq<u8>,
    target_port: Seq<u8>,
)
    requires
        is_one_word(family),
        is_one_word(source),
        is_one_word(target),
        is_one_word(source_port),
        is_one_word(target_port),
    ensures
        ({
            let header = text_header(family, source, target, source_port, target_port);
            let n = header.len() as int;
            &&& n >= 12
            &&& words(header.take(n - 2)) == seq![
                seq![80u8, 82, 79, 88, 89],
                family,
                source,
                target,
                source_port,
                target_port,
            ]
            &&& forall|i: int| 0 <= i < n - 2 ==> #[trigger] header.take(n - 2)[i] != 13
            &&& header[n - 2] == 13
            &&& header[n - 1] == 10
            &&& header.take(6) == v1_start()
        }),
{
    let start = seq![80u8, 82, 79, 88, 89];
    let end = seq![13u8, 10];
    let e0 = target_port;
    let e1 = source_port.push(32) + e0;
    let e2 = target.push(32) + e1;
    let e3 = source.push(32) + e2;
    let e4 = family.push(32) + e3;
    let line = start.push(32) + e4;
    let header = text_header(family, source, target, source_port, target_port);
    assert(source_port.push(32) + (e0 + end) =~= e1 + end);
    assert(target.push(32) + (e1 + end) =~= e2 + end);
    assert(source.push(32) + (e2 + end) =~= e3 + end);
    assert(family.push(32) + (e3 + end) =~= e4 + end);
    assert(start.push(32) + (e4 + end) =~= line + end);
    assert(header == line + end);
    assert(header.take(header.len() - 2) =~= line);
    assert(header.take(6) =~= v1_start());
    assert(is_one_word(start));
    lemma_one_word(start);
    lemma_one_word(family);
    lemma_one_word(source);
    lemma_one_word(target);
    lemma_one_word(source_port);
    lemma_one_word(target_port);
    lemma_words_join(source_port, 32, e0);
    lemma_words_join(target, 32, e1);
    lemma_words_join(source, 32, e2);
    lemma_words_join(family, 32, e3);
    lemma_words_join(start, 32, e4);
    assert(words(line) =~= seq![start, family, source, target, source_port, target_port]);
    lemma_no_cr(e0, source_port);
    lemma_no_cr(e1, target);
    lemma_no_cr(e2, source);
    lemma_no_cr(e3, family);
    lemma_no_cr(e4, start);
}

/// A text header names the client by its address and its port, whatever comes behind the
/// header: `TCP4` with two IPv4 addresses, `TCP6` with two IPv6 addresses, and in either
/// case a source port other than 0. With anything else in these places it is no header.
#[verifier::spinoff_prover]
#[verifier::rlimit(40)]
pub proof fn law_a_text_header_names_its_client(
    family: Seq<u8>,
    source: Seq<u8>,
    target: Seq<u8>,
    source_port: Seq<u8>,
    target_port: Seq<u8>,
    more: Seq<u8>,
)
    requires
        is_one_word(family),
        is_one_word(source),
        is_one_word(target),
        is_one_word(source_port),
        is_one_word(target_port),
        family != seq![85u8, 78, 75, 78, 79, 87, 78],
        text_header(family, source, target, source_port, target_port).len() <= 107,
    ensures
        ({
            let header = text_header(family, source, target, source_port, target_port);
            let verdict = proxy_spec(header + more);
            let four = family == seq![84u8, 67, 80, 52] && v4_text(source) is Some && v4_text(
                target,
            ) is Some;
            let six = family == seq![84u8, 67, 80, 54] && v4_text(source) is None && v4_text(
                target,
            ) is None && v6_groups(source) is Some && v6_groups(target) is Some;
            let port = port_text(source_port);
            &&& (four || six) && port is Some && port->0 != 0 && port_text(target_port) is Some ==> {
                &&& verdict matches ProxyParse::Addr(client, taken)
                &&& taken == header.len()
                &&& client.port == port->0
                &&& client.flowinfo == 0
                &&& client.scope_id == 0
                &&& four ==> client.ip == IpAddr::V4(Ipv4Addr { bits: v4_text(source)->0 })
                &&& six ==> client.ip == IpAddr::V6(
                    Ipv6Addr { bits: from_groups(v6_groups(source)->0) as u128 },
                )
            }
            &&& !(four || six) || port is None || port->0 == 0 || port_text(target_port) is None
                ==> verdict is NotProxy
        }),
{
    let header = text_header(family, source, target, source_port, target_port);
    lemma_text_header(family, source, target, source_port, target_port, more);
    lemma_six_words(
        seq![v1_start().take(5), family, source, target, source_port, target_port],
        header.len() as usize,
    );
    lemma_families(source);
    lemma_families(target);
}

/// What six words say, by the two addresses and the two ports among them.
proof fn lemma_six_words(w: Seq<Seq<u8>>, taken: usize)
    requires
        w.len() == 6,
        w[0] == v1_start().take(5),
        w[1] != seq![85u8, 78, 75, 78, 79, 87, 78],
    ensures
        ({
            let src = ip_text(w[2]);
            let dst = ip_text(w[3]);
            let port = port_text(w[4]);
            let four = w[1] == seq![84u8, 67, 80, 52] && src is Some && src->0 is V4 && dst is Some
                && dst->0 is V4;
            let six = w[1] == seq![84u8, 67, 80, 54] && src is Some && src->0 is V6 && dst is Some
                && dst->0 is V6;
            let good = (four || six) && port is Some && port->0 != 0 && port_text(w[5]) is Some;
            &&& good ==> v1_line(w, taken) == ProxyParse::Addr(plain_addr(src->0, port->0), taken)
            &&& !good ==> v1_line(w, taken) is NotProxy
        }),
{
    assert(unknown_word() =~= seq![85u8, 78, 75, 78, 79, 87, 78]);
    assert(tcp_word(0x34) =~= seq![84u8, 67, 80, 52]);
    assert(tcp_word(0x36) =~= seq![84u8, 67, 80, 54]);
}

proof fn lemma_families(s: Seq<u8>)
    ensures
        v4_text(s) is Some ==> ip_text(s) == Some(IpAddr::V4(Ipv4Addr { bits: v4_text(s)->0 })),
        v4_text(s) is None && v6_groups(s) is Some ==> ip_text(s) == Some(
            IpAddr::V6(Ipv6Addr { bits: from_groups(v6_groups(s)->0) as u128 }),
        ),
        v4_text(s) is None && v6_groups(s) is None ==> ip_text(s) is None,
{
}

proof fn lemma_no_cr(rest: Seq<u8>, word: Seq<u8>)
    requires
        is_one_word(word),
        forall|i: int| 0 <= i < rest.len() ==> #[trigger] rest[i] != 13,
    ensures
        forall|i: int|
            0 <= i < (word.push(32) + rest).len() ==> #[trigger] (word.push(32) + rest)[i] != 13,
{
    let all = word.push(32) + rest;
    assert forall|i: int| 0 <= i < all.len() implies #[trigger] all[i] != 13 by {
        if i < word.len() {
            assert(all[i] == word[i]);
        } else if i > word.len() {
            assert(all[i] == rest[i - word.len() - 1]);
        }
    }
}

/// `PROXY UNKNOWN` and an end of line leave the address as it is.
pub proof fn law_an_unknown_client_leaves_the_address(more: Seq<u8>)
    ensures
        proxy_spec(
            seq![80u8, 82, 79, 88, 89].push(32) + seq![85u8, 78, 75, 78, 79, 87, 78] + seq![13u8, 10]
                + more,
        ) == ProxyParse::Local(15),
{
    let start = seq![80u8, 82, 79, 88, 89];
    let unknown = seq![85u8, 78, 75, 78, 79, 87, 78];
    let line = start.push(32) + unknown;
    let s = line + seq![13u8, 10] + more;
    assert(is_one_word(start));
    assert(is_one_word(unknown));
    lemma_one_word(start);
    lemma_one_word(unknown);
    lemma_words_join(start, 32, unknown);
    assert(words(line) =~= seq![start, unknown]);
    lemma_no_cr(unknown, start);
    assert forall|i: int| 0 <= i < 13 implies #[trigger] s[i] != 13 by {
        assert(s[i] == line[i]);
    }
    lemma_line_end_is(s, 0, 13, 107);
    assert(s.take(13) =~= line);
    assert(s.take(6) =~= v1_start());
    assert(s[0] == 80);
    assert(!starts_with(s, v2_signature())) by {
        if starts_with(s, v2_signature()) {
            assert(s.take(12)[0] == s[0]);
            assert(v2_signature()[0] == 13);
        }
    }
    assert(v1_start().take(5) =~= start);
    assert(unknown_word() =~= unknown);
}

/// A binary header starts with twelve octets that no text header has. Behind them stand the
/// version 2 and the command, the family, and the length of what follows. Once all of it is
/// there, the command 0 leaves the address as it is, and the command 1 names the client: an
/// IPv4 address and its port, with at least 12 octets, or an IPv6 address and its port, with
/// at least 36. The port is not 0. Anything else is no header.
pub proof fn law_a_binary_header_names_its_client(s: Seq<u8>)
    requires
        s.len() >= 16,
        s.take(12) == seq![13u8, 10, 13, 10, 0, 13, 10, 81, 85, 73, 84, 10],
    ensures
        ({
            let verdict = proxy_spec(s);
            let length = s[14] * 256 + s[15];
            let whole = s.len() >= 16 + length;
            let four = s[13] == 17 && length >= 12;
            let six = s[13] == 33 && length >= 36;
            let port = if s[13] == 17 {
                s[24] * 256 + s[25]
            } else {
                s[48] * 256 + s[49]
            };
            &&& s[12] != 32 && s[12] != 33 ==> verdict is NotProxy
            &&& (s[12] == 32 || s[12] == 33) && !whole ==> verdict is Incomplete
            &&& s[12] == 32 && whole ==> verdict == ProxyParse::Local((16 + length) as usize)
            &&& s[12] == 33 && whole && four && port != 0 ==> verdict == ProxyParse::Addr(
                plain_addr(
                    IpAddr::V4(
                        Ipv4Addr {
                            bits: (s[16] * 0x100_0000 + s[17] * 0x1_0000 + s[18] * 0x100
                                + s[19]) as u32,
                        },
                    ),
                    port as u16,
                ),
                (16 + length) as usize,
            )
            &&& s[12] == 33 && whole && six && port != 0 ==> verdict == ProxyParse::Addr(
                plain_addr(
                    IpAddr::V6(Ipv6Addr { bits: be_value(s.subrange(16, 32)) as u128 }),
                    port as u16,
                ),
                (16 + length) as usize,
            )
            &&& s[12] == 33 && whole && (!(four || six) || port == 0) ==> verdict is NotProxy
        }),
{
    assert(v2_signature() =~= seq![13u8, 10, 13, 10, 0, 13, 10, 81, 85, 73, 84, 10]);
    let c = s[12] as int;
    assert(c / 16 == 2 && c % 16 <= 1 <==> c == 32 || c == 33);
    if s.len() >= 20 {
        crate::sockaddr::lemma_four(s.subrange(16, 20));
    }
}

/// The start of a header leaves the verdict open.
pub proof fn law_the_start_of_a_header_is_waited_for(n: int)
    ensures
        0 <= n <= 5 ==> proxy_spec(seq![80u8, 82, 79, 88, 89].take(n)) is Incomplete,
        0 <= n <= 12 ==> proxy_spec(
            seq![13u8, 10, 13, 10, 0, 13, 10, 81, 85, 73, 84, 10].take(n),
        ) is Incomplete,
{
    let text = seq![80u8, 82, 79, 88, 89];
    let binary = seq![13u8, 10, 13, 10, 0, 13, 10, 81, 85, 73, 84, 10];
    assert(v1_start() =~= seq![80u8, 82, 79, 88, 89, 32]);
    assert(v2_signature() =~= binary);
    if 0 <= n <= 5 {
        let t = text.take(n);
        assert(v1_start().take(n) =~= t);
        assert(t.len() == n);
        assert(starts_with(v1_start(), t));
    }
    if 0 <= n <= 12 {
        lemma_binary_start(n);
    }
}

proof fn lemma_binary_start(n: int)
    requires
        0 <= n <= 12,
    ensures
        proxy_spec(v2_signature().take(n)) is Incomplete,
{
    let t = v2_signature().take(n);
    assert(t.len() == n);
    if n == 12 {
        assert(t =~= v2_signature());
        assert(t.take(12) =~= t);
        assert(starts_with(t, v2_signature()));
    } else {
        assert(!starts_with(t, v2_signature()));
        assert(!starts_with(t, v1_start())) by {
            if starts_with(t, v1_start()) {
                assert(t.take(6)[0] == t[0]);
                assert(v1_start()[0] == 80);
                assert(t[0] == v2_signature()[0]);
            }
        }
        assert(starts_with(v2_signature(), t));
    }
}

/// What does not start as a header does is no header: a text header starts with `PROXY` and
/// a space, and its line ends within 107 octets.
pub proof fn law_what_can_become_a_header(s: Seq<u8>)
    ensures
        s.len() > 0 && s[0] != 80 && s[0] != 13 ==> proxy_spec(s) is NotProxy,
        s.len() >= 6 && s.take(6) != seq![80u8, 82, 79, 88, 89, 32] && s[0] == 80 ==> proxy_spec(
            s,
        ) is NotProxy,
        s.len() >= 107 && s[0] == 80 && (forall|i: int|
            0 <= i < 106 && #[trigger] s[i] == 13 ==> s[i + 1] != 10) ==> proxy_spec(s) is NotProxy,
        6 <= s.len() < 107 && s.take(6) == seq![80u8, 82, 79, 88, 89, 32] && (forall|i: int|
            0 <= i < s.len() - 1 && #[trigger] s[i] == 13 ==> s[i + 1] != 10) ==> proxy_spec(
            s,
        ) is Incomplete,
{
    assert(v1_start() =~= seq![80u8, 82, 79, 88, 89, 32]);
    assert(v2_signature()[0] == 13);
    assert(v1_start()[0] == 80);
    if s.len() > 0 {
        if s.len() >= 6 {
            assert(s.take(6)[0] == s[0]);
        }
        if starts_with(s, v2_signature()) {
            assert(s.take(12)[0] == s[0]);
        }
        if starts_with(v1_start(), s) {
            assert(v1_start().take(s.len() as int)[0] == s[0]);
        }
        if starts_with(v2_signature(), s) {
            assert(v2_signature().take(s.len() as int)[0] == s[0]);
        }
    }
    if s.len() >= 107 && (forall|i: int|
        0 <= i < 106 && #[trigger] s[i] == 13 ==> s[i + 1] != 10) {
        lemma_no_line_end(s, 0, 107);
    }
    if s.len() < 107 && (forall|i: int|
        0 <= i < s.len() - 1 && #[trigger] s[i] == 13 ==> s[i + 1] != 10) {
        lemma_no_line_end(s, 0, 107);
    }
}

proof fn lemma_no_line_end(s: Seq<u8>, from: int, limit: int)
    requires
        0 <= from,
        forall|i: int|
            from <= i && i + 2 <= limit && i + 2 <= s.len() && #[trigger] s[i] == 13 ==> s[i + 1]
                != 10,
    ensures
        line_end(s, from, limit) == -1,
    decreases limit - from,
{
    if from + 2 <= limit && from + 2 <= s.len() {
        assert(!(s[from] == 13 && s[from + 1] == 10));
        lemma_no_line_end(s, from + 1, limit);
    }
}

} // verus!
