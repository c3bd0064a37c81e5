//! Cookies that prove a round trip: an address that sends one back has received
//! an answer before.

use vstd::prelude::*;
use zeroize::Zeroize;

use crate::addr::{be_octets, octet_at, octets_of, pow256, IpAddr};
use crate::siphash::{le_octets, le_value, siphash, word_at, word_octets, SipHasher24};

verus! {

/// Version, three reserved octets, a time of four and a hash of eight.
pub const SERVER_COOKIE_LEN: usize = 16;

pub const COOKIE_VERSION: u8 = 1;

/// How old a cookie may be, in seconds.
pub const ACCEPT_PAST_SECS: u32 = 3600;

/// How far ahead of the clock a cookie may be, in seconds.
pub const ACCEPT_FUTURE_SECS: u32 = 300;

/// How long one derived key is in use, in seconds: thirty days.
pub const SECRET_EPOCH_SECS: u32 = 2_592_000;

/// What is hashed ahead of the number of the epoch when a key is derived.
pub open spec fn epoch_context() -> Seq<u8> {
    seq![
        0x4f, 0x6e, 0x65, 0x74, 0x44, 0x4e, 0x53, 0x20, 0x44, 0x4e, 0x53, 0x20, 0x43,
        0x6f, 0x6f, 0x6b, 0x69, 0x65, 0x20, 0x65, 0x70, 0x6f, 0x63, 0x68, 0x20, 0x6b,
        0x65, 0x79, 0x20, 0x76, 0x31,
    ]
}

fn epoch_context_octets() -> (r: [u8; 31])
    ensures
        r@ == epoch_context(),
{
    let r = [
        0x4f, 0x6e, 0x65, 0x74, 0x44, 0x4e, 0x53, 0x20, 0x44, 0x4e, 0x53, 0x20, 0x43,
        0x6f, 0x6f, 0x6b, 0x69, 0x65, 0x20, 0x65, 0x70, 0x6f, 0x63, 0x68, 0x20, 0x6b,
        0x65, 0x79, 0x20, 0x76, 0x31,
    ];
    assert(r@ =~= epoch_context());
    r
}

/// What the keys for one half are derived from.
pub open spec fn epoch_material(epoch: u32, half: u8) -> Seq<u8> {
    epoch_context() + be_octets(epoch as int, 4) + seq![half]
}

/// The first eight octets of a server cookie.
pub open spec fn cookie_head(stamp: u32) -> Seq<u8> {
    seq![COOKIE_VERSION, 0, 0, 0] + be_octets(stamp as int, 4)
}

/// The time that stands in a server cookie.
pub open spec fn cookie_stamp(server: Seq<u8>) -> u32 {
    (server[4] * 0x100_0000 + server[5] * 0x1_0000 + server[6] * 0x100 + server[7]) as u32
}

/// The time of a cookie is close enough to `now`. Both count seconds and start
/// over after the largest number that fits.
pub open spec fn in_window(stamp: u32, now: u32) -> bool {
    let age = (now - stamp) % 0x1_0000_0000;
    age <= ACCEPT_PAST_SECS || age >= 0x1_0000_0000 - ACCEPT_FUTURE_SECS
}

/// The secret behind the cookies of a server.
pub struct CookieKeeper {
    k0: u64,
    k1: u64,
    rotating: bool,
}

/// What a cookie turned out to be.
#[derive(Clone, Copy, Debug)]
pub struct CookieCheck {
    /// The eight octets of the client, which go back in the answer.
    pub client: [u8; 8],
    /// The server's part is one that this server gave to this address lately.
    pub valid: bool,
}

/// Overwrites a word. `zeroize` writes the default of `u64`, which is 0, in a
/// way that the compiler keeps.
#[verifier::external_body]
fn wipe_word(x: &mut u64)
    ensures
        *final(x) == 0,
    opens_invariants none
    no_unwind
{
    x.zeroize();
}

/// Overwrites a secret. `zeroize` on an array writes 0 to each octet of it in a
/// way that the compiler keeps.
#[verifier::external_body]
fn wipe_secret(x: &mut [u8; 16])
    ensures
        final(x)@ == Seq::new(16, |i: int| 0u8),
{
    x.zeroize();
}

impl CookieKeeper {
    pub closed spec fn secret(&self) -> (u64, u64) {
        (self.k0, self.k1)
    }

    /// Whether the keys change with each epoch.
    pub closed spec fn rotates(&self) -> bool {
        self.rotating
    }

    /// The keys for cookies of the given time.
    pub open spec fn keys_for(&self, stamp: u32) -> (u64, u64) {
        let (a, b) = self.secret();
        if self.rotates() {
            let epoch = stamp / SECRET_EPOCH_SECS;
            (
                siphash(2, 4, a, b, epoch_material(epoch, 0)),
                siphash(2, 4, a, b, epoch_material(epoch, 1)),
            )
        } else {
            (a, b)
        }
    }

    /// The cookie for a client at an address: the head, then a hash over the
    /// client's part, the head and the address.
    pub open spec fn cookie_for(&self, client: Seq<u8>, ip: IpAddr, stamp: u32) -> Seq<u8> {
        let (a, b) = self.keys_for(stamp);
        let head = cookie_head(stamp);
        head + le_octets(siphash(2, 4, a, b, client + head + ip.octets_spec()))
    }

    /// The server's part is the one for this client, this address and the time
    /// in it, and that time is close enough.
    pub open spec fn gave(&self, server: Seq<u8>, client: Seq<u8>, ip: IpAddr, now: u32) -> bool {
        &&& server.len() == SERVER_COOKIE_LEN
        &&& in_window(cookie_stamp(server), now)
        &&& server == self.cookie_for(client, ip, cookie_stamp(server))
    }

    /// A keeper with one fixed key.
    pub fn from_secret(secret: &[u8; 16]) -> (r: Self)
        ensures
            r.secret().0 == le_value(secret@.subrange(0, 8)),
            r.secret().1 == le_value(secret@.subrange(8, 16)),
            !r.rotates(),
    {
        CookieKeeper { k0: word_at(secret, 0), k1: word_at(secret, 8), rotating: false }
    }

    /// A keeper that derives a key for each epoch from the secret. Servers with
    /// the same secret accept each other's cookies.
    pub fn from_master_secret(secret: &[u8; 16]) -> (r: Self)
        ensures
            r.secret().0 == le_value(secret@.subrange(0, 8)),
            r.secret().1 == le_value(secret@.subrange(8, 16)),
            r.rotates(),
    {
        CookieKeeper { k0: word_at(secret, 0), k1: word_at(secret, 8), rotating: true }
    }

    /// A keeper on a secret that was drawn for it alone. The drawn octets are
    /// overwritten.
    pub fn random(drawn: &mut [u8; 16]) -> (r: Self)
        ensures
            r.secret().0 == le_value(old(drawn)@.subrange(0, 8)),
            r.secret().1 == le_value(old(drawn)@.subrange(8, 16)),
            r.rotates(),
            final(drawn)@ == Seq::new(16, |i: int| 0u8),
    {
        let keeper = Self::from_master_secret(drawn);
        wipe_secret(drawn);
        keeper
    }

    /// Overwrites the secret.
    pub fn erase(&mut self)
        ensures
            final(self).secret() == (0u64, 0u64),
            final(self).rotates() == old(self).rotates(),
        opens_invariants none
        no_unwind
    {
        wipe_word(&mut self.k0);
        wipe_word(&mut self.k1);
    }

    fn derive(&self, epoch: u32, half: u8) -> (r: u64)
        ensures
            r == siphash(2, 4, self.secret().0, self.secret().1, epoch_material(epoch, half)),
    {
        let mut h = SipHasher24::new_with_keys(self.k0, self.k1);
        let context = epoch_context_octets();
        h.write(&context);
        let number = octets_of(epoch);
        h.write(&number);
        let last = [half];
        h.write(&last);
        assert(h.written() =~= epoch_material(epoch, half)) by {
            assert(last@ =~= seq![half]);
        }
        h.finish()
    }

    /// The keys for cookies of the given time.
    pub fn keys_at(&self, stamp: u32) -> (r: (u64, u64))
        ensures
            r == self.keys_for(stamp),
    {
        if !self.rotating {
            return (self.k0, self.k1);
        }
        let epoch: u32 = stamp / SECRET_EPOCH_SECS;
        (self.derive(epoch, 0), self.derive(epoch, 1))
    }

    /// The server's part of a cookie with the given time in it. The address goes
    /// into the hash, so that the cookie is of no use from another one.
    pub fn server_cookie_at(&self, client_cookie: &[u8], ip: IpAddr, stamp: u32) -> (r: [u8; 16])
        requires
            client_cookie@.len() + 24 <= usize::MAX,
        ensures
            r@ == self.cookie_for(client_cookie@, ip, stamp),
    {
        let keys = self.keys_at(stamp);
        let s = octets_of(stamp);
        let head = [COOKIE_VERSION, 0, 0, 0, s[0], s[1], s[2], s[3]];
        assert(head@ =~= cookie_head(stamp));
        let octets = ip.octets();
        let mut h = SipHasher24::new_with_keys(keys.0, keys.1);
        h.write(client_cookie);
        h.write(&head);
        h.write(octets.as_slice());
        assert(h.written() =~= client_cookie@ + cookie_head(stamp) + ip.octets_spec());
        let t = word_octets(h.finish());
        let r = [
            COOKIE_VERSION, 0, 0, 0, s[0], s[1], s[2], s[3], t[0], t[1], t[2], t[3], t[4], t[5],
            t[6], t[7],
        ];
        assert(r@ =~= self.cookie_for(client_cookie@, ip, stamp));
        r
    }

    /// The server's part of a cookie that is made now.
    pub fn server_cookie(&self, client_cookie: &[u8], ip: IpAddr, now: u32) -> (r: [u8; 16])
        requires
            client_cookie@.len() + 24 <= usize::MAX,
        ensures
            r@ == self.cookie_for(client_cookie@, ip, now),
    {
        self.server_cookie_at(client_cookie, ip, now)
    }

    /// The cookie for an answer: the client's part, then the server's.
    pub fn response_cookie(&self, client_cookie: &[u8; 8], ip: IpAddr, now: u32) -> (r: Vec<u8>)
        ensures
            r@ == client_cookie@ + self.cookie_for(client_cookie@, ip, now),
    {
        let server = self.server_cookie(client_cookie, ip, now);
        let mut out: Vec<u8> = Vec::new();
        let mut i: usize = 0;
        while i < 8
            invariant
                i <= 8,
                out@ == client_cookie@.take(i as int),
            decreases 8 - i,
        {
            out.push(client_cookie[i]);
            assert(out@ =~= client_cookie@.take(i + 1));
            i = i + 1;
        }
        assert(client_cookie@.take(8) =~= client_cookie@);
        let mut j: usize = 0;
        while j < 16
            invariant
                j <= 16,
                out@ == client_cookie@ + server@.take(j as int),
            decreases 16 - j,
        {
            out.push(server[j]);
            assert(out@ =~= client_cookie@ + server@.take(j + 1));
            j = j + 1;
        }
        assert(server@.take(16) =~= server@);
        out
    }

    /// Reads a cookie and judges the server's part of it. It has 8 octets, or 16
    /// to 40; with any other length it is malformed.
    pub fn parse_and_validate(&self, cookie: &[u8], ip: IpAddr, now: u32) -> (r: Option<CookieCheck>)
        ensures
            r is Some <==> (cookie@.len() == 8 || 16 <= cookie@.len() <= 40),
            r matches Some(c) ==> {
                &&& c.client@ == cookie@.take(8)
                &&& c.valid == self.gave(cookie@.skip(8), cookie@.take(8), ip, now)
            },
    {
        let n: usize = cookie.len();
        if n != 8 && !(16 <= n && n <= 40) {
            return None;
        }
        let client = [
            cookie[0], cookie[1], cookie[2], cookie[3], cookie[4], cookie[5], cookie[6], cookie[7],
        ];
        assert(client@ =~= cookie@.take(8));
        let valid: bool = self.server_part_is_ours(cookie, &client, ip, now);
        Some(CookieCheck { client, valid })
    }

    /// Whether what follows the client's part is a cookie of this server for this
    /// client, from within the window.
    fn server_part_is_ours(&self, cookie: &[u8], client: &[u8; 8], ip: IpAddr, now: u32) -> (r: bool)
        requires
            cookie@.len() >= 8,
            client@ == cookie@.take(8),
        ensures
            r == self.gave(cookie@.skip(8), client@, ip, now),
    {
        let ghost server = cookie@.skip(8);
        if cookie.len() != 8 + SERVER_COOKIE_LEN {
            return false;
        }
        let stamp: u32 = cookie[12] as u32 * 0x100_0000 + cookie[13] as u32 * 0x1_0000 + cookie[14]
            as u32 * 0x100 + cookie[15] as u32;
        assert(stamp == cookie_stamp(server));
        if cookie[8] != COOKIE_VERSION {
            assert(server[0] != self.cookie_for(client@, ip, stamp)[0]);
            return false;
        }
        let age: u32 = now.wrapping_sub(stamp);
        assert(age as int == (now - stamp) % 0x1_0000_0000);
        if !(age <= ACCEPT_PAST_SECS || age >= 0xffff_ffff - (ACCEPT_FUTURE_SECS - 1)) {
            return false;
        }
        let expected = self.server_cookie_at(client, ip, stamp);
        ct_eq_from(cookie, 8, &expected)
    }
}

impl Drop for CookieKeeper {
    /// The secret does not outlive its keeper.
    fn drop(&mut self)
        opens_invariants none
        no_unwind
    {
        self.erase();
    }
}

/// Whether the octets from `at` on are the expected ones. Every octet is looked
/// at, so that the time taken tells nothing of where they differ.
fn ct_eq_from(a: &[u8], at: usize, b: &[u8; 16]) -> (r: bool)
    requires
        a.len() == at + 16,
    ensures
        r == (a@.skip(at as int) == b@),
{
    let mut d: u8 = 0;
    let mut i: usize = 0;
    while i < 16
        invariant
            i <= 16,
            a.len() == at + 16,
            d == 0 <==> (forall|j: int| 0 <= j < i ==> a@[at + j] == #[trigger] b@[j]),
        decreases 16 - i,
    {
        let x: u8 = a[at + i];
        let y: u8 = b[i];
        assert((d | (x ^ y)) == 0 <==> (d == 0 && x == y)) by (bit_vector);
        d = d | (x ^ y);
        i = i + 1;
    }
    proof {
        let t = a@.skip(at as int);
        if d == 0 {
            assert(t =~= b@);
        } else {
            let j = choose|j: int| 0 <= j < 16 && a@[at + j] != #[trigger] b@[j];
            assert(t[j] != b@[j]);
        }
    }
    d == 0
}

pub proof fn lemma_stamp_is_kept(stamp: u32, rest: Seq<u8>)
    ensures
        cookie_stamp(cookie_head(stamp) + rest) == stamp,
{
    reveal_with_fuel(pow256, 4);
    let h = cookie_head(stamp) + rest;
    assert(h[4] == octet_at(stamp as int, 4, 0));
    assert(h[5] == octet_at(stamp as int, 4, 1));
    assert(h[6] == octet_at(stamp as int, 4, 2));
    assert(h[7] == octet_at(stamp as int, 4, 3));
    assert(pow256(0) == 1);
    assert(pow256(3) == 0x100_0000 && pow256(2) == 0x1_0000 && pow256(1) == 0x100);
    let n = stamp as int;
    assert(n / 0x100_0000 < 256) by (nonlinear_arith)
        requires
            0 <= n < 0x1_0000_0000,
    ;
    assert(n / pow256(0) == n) by (nonlinear_arith)
        requires
            pow256(0) == 1,
    ;
    assert(h[4] == n / 0x100_0000 % 256);
    assert(h[5] == n / 0x1_0000 % 256);
    assert(h[6] == n / 0x100 % 256);
    assert(h[7] == n % 256);
    assert(n / 0x100_0000 % 256 == n / 0x100_0000);
    vstd::arithmetic::div_mod::lemma_div_denominator(n, 0x1_0000, 256);
    vstd::arithmetic::div_mod::lemma_div_denominator(n, 0x100, 256);
}

/// A cookie that the server gave to a client is accepted from the same address,
/// with the same client's part, as long as its time is within the window.
pub proof fn law_own_cookies_are_accepted(
    keeper: CookieKeeper,
    client: Seq<u8>,
    ip: IpAddr,
    stamp: u32,
    now: u32,
)
    requires
        client.len() == 8,
        in_window(stamp, now),
    ensures
        ({
            let cookie = client + keeper.cookie_for(client, ip, stamp);
            &&& cookie.len() == 24
            &&& cookie.take(8) == client
            &&& keeper.gave(cookie.skip(8), cookie.take(8), ip, now)
        }),
{
    let server = keeper.cookie_for(client, ip, stamp);
    let cookie = client + server;
    assert(cookie.take(8) =~= client);
    assert(cookie.skip(8) =~= server);
    let (a, b) = keeper.keys_for(stamp);
    lemma_stamp_is_kept(
        stamp,
        le_octets(siphash(2, 4, a, b, client + cookie_head(stamp) + ip.octets_spec())),
    );
}

/// Without rotation the secret itself is the pair of keys, whatever the time; with it,
/// each epoch has one pair of its own, which all times in it share.
pub proof fn law_an_epoch_has_one_pair_of_keys(keeper: CookieKeeper, stamp: u32, other: u32)
    ensures
        !keeper.rotates() ==> keeper.keys_for(stamp) == keeper.secret(),
        keeper.rotates() ==> keeper.keys_for(stamp) == (
            siphash(
                2,
                4,
                keeper.secret().0,
                keeper.secret().1,
                epoch_context() + be_octets(stamp as int / SECRET_EPOCH_SECS as int, 4) + seq![0u8],
            ),
            siphash(
                2,
                4,
                keeper.secret().0,
                keeper.secret().1,
                epoch_context() + be_octets(stamp as int / SECRET_EPOCH_SECS as int, 4) + seq![1u8],
            ),
        ),
        stamp / SECRET_EPOCH_SECS == other / SECRET_EPOCH_SECS ==> keeper.keys_for(stamp)
            == keeper.keys_for(other),
{
}

/// A cookie made now is within the window.
pub proof fn law_fresh_cookies_are_in_the_window(now: u32)
    ensures
        in_window(now, now),
{
}

/// Nothing is accepted but what this server makes for the address it came from:
/// an accepted cookie is the one for that client, that address and a time within
/// the window.
pub proof fn law_only_own_cookies_are_accepted(
    keeper: CookieKeeper,
    server: Seq<u8>,
    client: Seq<u8>,
    ip: IpAddr,
    now: u32,
)
    requires
        keeper.gave(server, client, ip, now),
    ensures
        exists|stamp: u32|
            in_window(stamp, now) && server == #[trigger] keeper.cookie_for(client, ip, stamp),
{
    assert(server == keeper.cookie_for(client, ip, cookie_stamp(server)));
}

/// Keepers with the same secret and the same way of using it make the same
/// cookies and accept each other's.
pub proof fn law_shared_secrets_are_interchangeable(
    a: CookieKeeper,
    b: CookieKeeper,
    client: Seq<u8>,
    ip: IpAddr,
    stamp: u32,
    server: Seq<u8>,
    now: u32,
)
    requires
        a.secret() == b.secret(),
        a.rotates() == b.rotates(),
    ensures
        a.cookie_for(client, ip, stamp) == b.cookie_for(client, ip, stamp),
        a.gave(server, client, ip, now) == b.gave(server, client, ip, now),
{
}

/// A cookie is believed for an hour behind the clock and for five minutes ahead of it,
/// and no longer, also where the clock starts over in between.
pub proof fn law_how_long_a_cookie_is_believed(stamp: u32, now: u32)
    ensures
        stamp <= now && now - stamp <= 3600 ==> in_window(stamp, now),
        stamp >= now && stamp - now <= 300 ==> in_window(stamp, now),
        stamp <= now && 3600 < now - stamp && now - stamp < 0x1_0000_0000 - 300 ==> !in_window(
            stamp,
            now,
        ),
        stamp > now && 300 < stamp - now && stamp - now < 0x1_0000_0000 - 3600 ==> !in_window(
            stamp,
            now,
        ),
        stamp > now && now + 0x1_0000_0000 - stamp <= 3600 ==> in_window(stamp, now),
        now > stamp && stamp + 0x1_0000_0000 - now <= 300 ==> in_window(stamp, now),
{
}

/// A server cookie has 16 octets: the version, three zeros, the time with its most
/// significant octet first, and eight octets of a hash. The time can be read out of it,
/// and the hash covers the client's part, the head and the address.
pub proof fn law_what_stands_in_a_cookie(
    keeper: CookieKeeper,
    client: Seq<u8>,
    ip: IpAddr,
    stamp: u32,
)
    ensures
        ({
            let c = keeper.cookie_for(client, ip, stamp);
            let (a, b) = keeper.keys_for(stamp);
            &&& c.len() == 16
            &&& c[0] == 1 && c[1] == 0 && c[2] == 0 && c[3] == 0
            &&& c[4] * 0x100_0000 + c[5] * 0x1_0000 + c[6] * 0x100 + c[7] == stamp
            &&& cookie_stamp(c) == stamp
            &&& le_value(c.skip(8)) == siphash(2, 4, a, b, client + c.take(8) + ip.octets_spec())
            &&& SERVER_COOKIE_LEN == 16
            &&& SECRET_EPOCH_SECS == 30 * 24 * 3600
        }),
{
    let c = keeper.cookie_for(client, ip, stamp);
    let (a, b) = keeper.keys_for(stamp);
    let h = siphash(2, 4, a, b, client + cookie_head(stamp) + ip.octets_spec());
    lemma_stamp_is_kept(stamp, le_octets(h));
    assert(c =~= cookie_head(stamp) + le_octets(h));
    assert(c.take(8) =~= cookie_head(stamp));
    assert(c.skip(8) =~= le_octets(h));
    crate::siphash::law_a_word_is_read_back(h);
    let total = c[4] * 0x100_0000 + c[5] * 0x1_0000 + c[6] * 0x100 + c[7];
    assert(0 <= total < 0x1_0000_0000);
    assert(cookie_stamp(c) as int == total);
}

} // verus!
