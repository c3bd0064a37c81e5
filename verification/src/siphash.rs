//! SipHash with a choice of round counts.

use vstd::prelude::*;

use crate::addr::pow256;

verus! {

/// The four words of the mixing state.
#[derive(Clone, Copy, PartialEq, Eq, Structural, Debug)]
pub struct SipState {
    pub v0: u64,
    pub v1: u64,
    pub v2: u64,
    pub v3: u64,
}

/// The sum of two words, without the carry.
pub open spec fn sum64(a: u64, b: u64) -> u64 {
    a.wrapping_add(b)
}

/// The word with its bits moved `n` places up, those that fall out coming back
/// in from below.
pub open spec fn rotated(x: u64, n: u64) -> u64 {
    (x << n) | (x >> ((64 - n) as u64))
}

/// One round of mixing.
pub open spec fn round(s: SipState) -> SipState {
    let a0 = sum64(s.v0, s.v1);
    let a1 = rotated(s.v1, 13) ^ a0;
    let b0 = rotated(a0, 32);
    let a2 = sum64(s.v2, s.v3);
    let a3 = rotated(s.v3, 16) ^ a2;
    let c0 = sum64(b0, a3);
    let b3 = rotated(a3, 21) ^ c0;
    let b2 = sum64(a2, a1);
    let b1 = rotated(a1, 17) ^ b2;
    SipState { v0: c0, v1: b1, v2: rotated(b2, 32), v3: b3 }
}

pub open spec fn rounds(s: SipState, n: nat) -> SipState
    decreases n,
{
    if n == 0 {
        s
    } else {
        round(rounds(s, (n - 1) as nat))
    }
}

/// The state after a block of input.
pub open spec fn compressed(s: SipState, m: u64, c: nat) -> SipState {
    let t = rounds(SipState { v3: s.v3 ^ m, ..s }, c);
    SipState { v0: t.v0 ^ m, ..t }
}

/// The number that the octets write, least significant first.
pub open spec fn le_value(s: Seq<u8>) -> int
    decreases s.len(),
{
    if s.len() == 0 {
        0
    } else {
        le_value(s.drop_last()) + s.last() * pow256((s.len() - 1) as nat)
    }
}

pub open spec fn start_of(k0: u64, k1: u64) -> SipState {
    SipState {
        v0: k0 ^ 0x736f_6d65_7073_6575,
        v1: k1 ^ 0x646f_7261_6e64_6f6d,
        v2: k0 ^ 0x6c79_6765_6e65_7261,
        v3: k1 ^ 0x7465_6462_7974_6573,
    }
}

/// The state after the first `n` whole blocks of eight octets.
pub open spec fn state_after(k0: u64, k1: u64, c: nat, input: Seq<u8>, n: nat) -> SipState
    decreases n,
{
    if n == 0 {
        start_of(k0, k1)
    } else {
        compressed(
            state_after(k0, k1, c, input, (n - 1) as nat),
            le_value(input.subrange(8 * (n - 1), 8 * n as int)) as u64,
            c,
        )
    }
}

/// The octets behind the last whole block.
pub open spec fn rest_of(input: Seq<u8>) -> Seq<u8> {
    input.skip(8 * (input.len() as int / 8))
}

/// The hash: all whole blocks, then the rest with the length in the top octet,
/// then the closing rounds.
pub open spec fn siphash(c: nat, d: nat, k0: u64, k1: u64, input: Seq<u8>) -> u64 {
    let last = ((input.len() as int % 256) * 0x100_0000_0000_0000 + le_value(rest_of(input))) as u64;
    let s = compressed(state_after(k0, k1, c, input, input.len() / 8), last, c);
    let t = rounds(SipState { v2: s.v2 ^ 0xff, ..s }, d);
    t.v0 ^ t.v1 ^ t.v2 ^ t.v3
}

pub proof fn lemma_le_value_bound(s: Seq<u8>)
    ensures
        0 <= le_value(s) < pow256(s.len()),
    decreases s.len(),
{
    if s.len() > 0 {
        let m = s.drop_last();
        lemma_le_value_bound(m);
        let p = pow256(m.len());
        assert(pow256(s.len()) == 256 * p);
        assert(s.last() * p <= 255 * p) by (nonlinear_arith)
            requires
                s.last() <= 255,
                p >= 0,
        ;
        crate::addr::lemma_pow256_positive(m.len());
        assert(0 <= s.last() * p) by (nonlinear_arith)
            requires
                p > 0,
                s.last() >= 0,
        ;
    }
}

proof fn lemma_state_prefix(k0: u64, k1: u64, c: nat, a: Seq<u8>, b: Seq<u8>, n: nat)
    requires
        8 * n <= a.len(),
        a.len() <= b.len(),
        a == b.take(a.len() as int),
    ensures
        state_after(k0, k1, c, a, n) == state_after(k0, k1, c, b, n),
    decreases n,
{
    if n > 0 {
        lemma_state_prefix(k0, k1, c, a, b, (n - 1) as nat);
        assert(a.subrange(8 * (n - 1), 8 * n as int) =~= b.subrange(8 * (n - 1), 8 * n as int));
    }
}

/// The octets of the word, least significant first.
pub open spec fn le_octets(value: u64) -> Seq<u8> {
    Seq::new(8, |i: int| ((value as int / pow256(i as nat)) % 256) as u8)
}

/// The word that eight octets write, least significant first.
pub(crate) fn word_at(s: &[u8], at: usize) -> (r: u64)
    requires
        at + 8 <= s.len(),
    ensures
        r == le_value(s@.subrange(at as int, at + 8)),
{
    let ghost block = s@.subrange(at as int, at + 8);
    let mut r: u64 = 0;
    let mut i: usize = 0;
    assert(block.take(0) =~= Seq::<u8>::empty());
    while i < 8
        invariant
            i <= 8,
            at + 8 <= s.len(),
            block == s@.subrange(at as int, at + 8),
            r == le_value(block.take(i as int)),
        decreases 8 - i,
    {
        proof {
            let t = block.take(i + 1);
            assert(t.drop_last() =~= block.take(i as int));
            assert(t.last() == block[i as int]);
            lemma_le_value_bound(t);
            lemma_le_value_bound(block.take(i as int));
            lemma_pow_small(i as nat);
            assert(s@[at + i] * pow256(i as nat) < 0x1_0000_0000_0000_0000);
        }
        let p: u64 = place(i);
        r = r + s[at + i] as u64 * p;
        i = i + 1;
    }
    assert(block.take(8) =~= block);
    r
}

/// The octets of the word, least significant first.
pub(crate) fn word_octets(value: u64) -> (r: [u8; 8])
    ensures
        r@ == le_octets(value),
{
    let r = [
        (value / place(0) % 256) as u8,
        (value / place(1) % 256) as u8,
        (value / place(2) % 256) as u8,
        (value / place(3) % 256) as u8,
        (value / place(4) % 256) as u8,
        (value / place(5) % 256) as u8,
        (value / place(6) % 256) as u8,
        (value / place(7) % 256) as u8,
    ];
    assert(r@ =~= le_octets(value));
    r
}

fn rotate(x: u64, n: u64) -> (r: u64)
    requires
        0 < n < 64,
    ensures
        r == rotated(x, n),
{
    (x << n) | (x >> (64 - n))
}

/// One round of mixing.
fn sipround(s: SipState) -> (r: SipState)
    ensures
        r == round(s),
{
    let a0: u64 = s.v0.wrapping_add(s.v1);
    let a1: u64 = rotate(s.v1, 13) ^ a0;
    let b0: u64 = rotate(a0, 32);
    let a2: u64 = s.v2.wrapping_add(s.v3);
    let a3: u64 = rotate(s.v3, 16) ^ a2;
    let c0: u64 = b0.wrapping_add(a3);
    let b3: u64 = rotate(a3, 21) ^ c0;
    let b2: u64 = a2.wrapping_add(a1);
    let b1: u64 = rotate(a1, 17) ^ b2;
    SipState { v0: c0, v1: b1, v2: rotate(b2, 32), v3: b3 }
}

fn siprounds(s: SipState, n: usize) -> (r: SipState)
    ensures
        r == rounds(s, n as nat),
{
    let mut t: SipState = s;
    let mut i: usize = 0;
    while i < n
        invariant
            i <= n,
            t == rounds(s, i as nat),
        decreases n - i,
    {
        t = sipround(t);
        i = i + 1;
    }
    t
}

fn compress(s: SipState, m: u64, c: usize) -> (r: SipState)
    ensures
        r == compressed(s, m, c as nat),
{
    let t: SipState = siprounds(SipState { v0: s.v0, v1: s.v1, v2: s.v2, v3: s.v3 ^ m }, c);
    SipState { v0: t.v0 ^ m, v1: t.v1, v2: t.v2, v3: t.v3 }
}

/// 256 to the power of `n`, for the eight places of a word.
fn place(n: usize) -> (r: u64)
    requires
        n < 8,
    ensures
        r == pow256(n as nat),
        r > 0,
{
    proof {
        reveal_with_fuel(pow256, 9);
    }
    if n == 0 {
        1
    } else if n == 1 {
        0x100
    } else if n == 2 {
        0x1_0000
    } else if n == 3 {
        0x100_0000
    } else if n == 4 {
        0x1_0000_0000
    } else if n == 5 {
        0x100_0000_0000
    } else if n == 6 {
        0x1_0000_0000_0000
    } else {
        0x100_0000_0000_0000
    }
}

/// A hash in the making: `C` rounds for each block, `D` at the end.
pub struct SipHasher<const C: usize, const D: usize> {
    state: SipState,
    /// The octets behind the last whole block, as a number.
    tail: u64,
    ntail: usize,
    length: usize,
    keys: Ghost<(u64, u64)>,
    input: Ghost<Seq<u8>>,
}

pub type SipHasher13 = SipHasher<1, 3>;

pub type SipHasher24 = SipHasher<2, 4>;

impl<const C: usize, const D: usize> SipHasher<C, D> {
    /// The key.
    pub closed spec fn key(&self) -> (u64, u64) {
        self.keys@
    }

    /// All that was written so far.
    pub closed spec fn written(&self) -> Seq<u8> {
        self.input@
    }

    /// How many octets were written.
    pub closed spec fn length(&self) -> int {
        self.length as int
    }

    /// How many octets stand behind the last whole block.
    pub closed spec fn pending(&self) -> int {
        self.ntail as int
    }

    /// The octets behind the last whole block, as a number.
    pub closed spec fn pending_word(&self) -> int {
        self.tail as int
    }

    /// What is held agrees with what was written: the whole length, and the octets
    /// behind the last whole block, with nothing above them.
    pub open spec fn in_step(&self) -> bool {
        &&& self.length() == self.written().len()
        &&& self.pending() == self.written().len() % 8
        &&& self.pending_word() == le_value(rest_of(self.written()))
        &&& self.pending_word() < pow256(self.pending() as nat)
    }

    #[verifier::type_invariant]
    spec fn well_formed(self) -> bool {
        let input = self.input@;
        &&& self.length == input.len()
        &&& self.ntail == input.len() % 8
        &&& self.tail == le_value(rest_of(input))
        &&& self.state == state_after(
            self.keys@.0,
            self.keys@.1,
            C as nat,
            input,
            input.len() / 8,
        )
    }

    pub fn new_with_keys(k0: u64, k1: u64) -> (r: Self)
        ensures
            r.key() == (k0, k1),
            r.written() == Seq::<u8>::empty(),
            r.in_step(),
    {
        let ghost none = Seq::<u8>::empty();
        assert(rest_of(none) =~= none);
        SipHasher {
            state: SipState {
                v0: k0 ^ 0x736f_6d65_7073_6575,
                v1: k1 ^ 0x646f_7261_6e64_6f6d,
                v2: k0 ^ 0x6c79_6765_6e65_7261,
                v3: k1 ^ 0x7465_6462_7974_6573,
            },
            tail: 0,
            ntail: 0,
            length: 0,
            keys: Ghost((k0, k1)),
            input: Ghost(none),
        }
    }

    /// Takes one more octet in.
    fn feed(&mut self, b: u8)
        requires
            old(self).written().len() < usize::MAX,
        ensures
            final(self).written() == old(self).written().push(b),
            final(self).key() == old(self).key(),
    {
        proof {
            use_type_invariant(&*self);
        }
        let ghost input = self.input@;
        let ghost next = input.push(b);
        let ghost k = self.keys@;
        let ghost n = input.len() / 8;
        let ghost rest = rest_of(input);
        proof {
            assert(rest.len() == input.len() % 8);
            lemma_le_value_bound(rest.push(b));
            assert(rest.push(b).drop_last() =~= rest);
            assert(input =~= next.take(input.len() as int));
            lemma_state_prefix(k.0, k.1, C as nat, input, next, n);
            reveal_with_fuel(pow256, 9);
            lemma_pow_small(self.ntail as nat);
        }
        let p: u64 = place(self.ntail);
        assert(b * p <= le_value(rest.push(b)));
        assert(b as u64 * p <= u64::MAX) by {
            assert(le_value(rest.push(b)) < pow256((self.ntail + 1) as nat));
        }
        let word: u64 = self.tail + b as u64 * p;
        assert(word == le_value(rest.push(b)));
        let filled: usize = self.ntail + 1;
        let length: usize = self.length + 1;
        if filled < 8 {
            proof {
                assert(next.len() / 8 == n);
                assert(rest_of(next) =~= rest.push(b));
            }
            *self = SipHasher {
                state: self.state,
                tail: word,
                ntail: filled,
                length,
                keys: self.keys,
                input: Ghost(next),
            };
        } else {
            proof {
                assert(next.len() / 8 == n + 1);
                assert(rest_of(next) =~= Seq::<u8>::empty());
                assert(next.subrange(8 * n as int, 8 * (n + 1) as int) =~= rest.push(b));
            }
            let state: SipState = compress(self.state, word, C);
            *self = SipHasher {
                state,
                tail: 0,
                ntail: 0,
                length,
                keys: self.keys,
                input: Ghost(next),
            };
        }
    }

    /// Appends octets to the input. In how many pieces the input comes makes no
    /// difference.
    pub fn write(&mut self, msg: &[u8])
        requires
            old(self).written().len() + msg@.len() <= usize::MAX,
        ensures
            final(self).written() == old(self).written() + msg@,
            final(self).key() == old(self).key(),
            final(self).in_step(),
    {
        let ghost start = self.written();
        let mut i: usize = 0;
        assert(start + msg@.take(0) =~= start);
        while i < msg.len()
            invariant
                i <= msg.len(),
                start.len() + msg@.len() <= usize::MAX,
                self.written() == start + msg@.take(i as int),
                self.key() == old(self).key(),
                start == old(self).written(),
            decreases msg.len() - i,
        {
            self.feed(msg[i]);
            proof {
                assert(start + msg@.take(i + 1) =~= (start + msg@.take(i as int)).push(
                    msg@[i as int],
                ));
            }
            i = i + 1;
        }
        assert(msg@.take(msg@.len() as int) =~= msg@);
        proof {
            use_type_invariant(&*self);
            lemma_le_value_bound(rest_of(self.written()));
        }
    }

    /// The hash of all that was written. More can be written afterwards.
    pub fn finish(&self) -> (r: u64)
        ensures
            r == siphash(C as nat, D as nat, self.key().0, self.key().1, self.written()),
    {
        proof {
            use_type_invariant(self);
            let rest = rest_of(self.input@);
            lemma_le_value_bound(rest);
            reveal_with_fuel(pow256, 9);
            lemma_pow_small(rest.len());
        }
        let top: u64 = (self.length % 256) as u64;
        let last: u64 = top * 0x100_0000_0000_0000 + self.tail;
        let s: SipState = compress(self.state, last, C);
        let t: SipState = siprounds(SipState { v0: s.v0, v1: s.v1, v2: s.v2 ^ 0xff, v3: s.v3 }, D);
        t.v0 ^ t.v1 ^ t.v2 ^ t.v3
    }
}

proof fn lemma_pow_small(n: nat)
    requires
        n < 8,
    ensures
        pow256(n) <= 0x100_0000_0000_0000,
        pow256(n + 1) <= 0x1_0000_0000_0000_0000,
        pow256(n + 1) == 256 * pow256(n),
{
    reveal_with_fuel(pow256, 9);
}

/// The hash depends on the octets alone: writing two pieces one after the other
/// gives the hash of both together.
pub proof fn law_streaming_equals_one_shot(
    c: nat,
    d: nat,
    k0: u64,
    k1: u64,
    before: Seq<u8>,
    a: Seq<u8>,
    b: Seq<u8>,
)
    ensures
        siphash(c, d, k0, k1, (before + a) + b) == siphash(c, d, k0, k1, before + (a + b)),
{
    assert((before + a) + b =~= before + (a + b));
}

/// The octets of a word write the word, and eight octets are those of the word that they
/// write: the first of them counts ones, each following one 256 times as much.
pub proof fn law_a_word_is_read_back(value: u64)
    ensures
        le_octets(value).len() == 8,
        le_value(le_octets(value)) == value,
        forall|s: Seq<u8>, b: u8|
            #![trigger le_value(s.push(b))]
            le_value(s.push(b)) == le_value(s) + b * pow256(s.len()),
        le_value(Seq::<u8>::empty()) == 0,
        pow256(0) == 1 && pow256(1) == 256 && pow256(2) == 256 * 256,
{
    reveal_with_fuel(pow256, 9);
    assert forall|s: Seq<u8>, b: u8|
        #![trigger le_value(s.push(b))]
        le_value(s.push(b)) == le_value(s) + b * pow256(s.len()) by {
        assert(s.push(b).drop_last() =~= s);
    }
    lemma_read_back(value as int, 8);
    assert(le_octets(value) =~= Seq::new(8, |i: int| ((value as int / pow256(i as nat)) % 256) as u8));
    assert(value as int % pow256(8) == value) by {
        assert(pow256(8) == 0x1_0000_0000_0000_0000);
    }
}

proof fn lemma_read_back(value: int, n: nat)
    requires
        0 <= value,
    ensures
        le_value(Seq::new(n, |i: int| ((value / pow256(i as nat)) % 256) as u8)) == value % pow256(n),
    decreases n,
{
    let s = Seq::new(n, |i: int| ((value / pow256(i as nat)) % 256) as u8);
    if n == 0 {
        assert(s =~= Seq::<u8>::empty());
        assert(pow256(0) == 1);
    } else {
        let m = (n - 1) as nat;
        lemma_read_back(value, m);
        assert(s.drop_last() =~= Seq::new(m, |i: int| ((value / pow256(i as nat)) % 256) as u8));
        let p = pow256(m) as int;
        crate::addr::lemma_pow256_positive(m);
        assert(pow256(n) == p * 256) by {
            assert(pow256(n) == 256 * pow256(m));
        }
        vstd::arithmetic::div_mod::lemma_mod_breakdown(value, p, 256);
        assert(s.last() == (value / p) % 256);
        assert(p * ((value / p) % 256) == ((value / p) % 256) * p) by (nonlinear_arith);
    }
}

/// A hash over eight octets or more takes the first whole blocks one by one, in order;
/// what a block does depends on the state before it and on its word alone.
pub proof fn law_blocks_are_taken_in_order(k0: u64, k1: u64, c: nat, input: Seq<u8>, n: nat)
    requires
        8 * (n + 1) <= input.len(),
    ensures
        state_after(k0, k1, c, input, 0) == (SipState {
            v0: k0 ^ 0x736f_6d65_7073_6575,
            v1: k1 ^ 0x646f_7261_6e64_6f6d,
            v2: k0 ^ 0x6c79_6765_6e65_7261,
            v3: k1 ^ 0x7465_6462_7974_6573,
        }),
        ({
            let before = state_after(k0, k1, c, input, n);
            let word = le_value(input.subrange(8 * n as int, 8 * n as int + 8)) as u64;
            let mixed = rounds(
                SipState { v0: before.v0, v1: before.v1, v2: before.v2, v3: before.v3 ^ word },
                c,
            );
            state_after(k0, k1, c, input, n + 1) == (SipState {
                v0: mixed.v0 ^ word,
                v1: mixed.v1,
                v2: mixed.v2,
                v3: mixed.v3,
            })
        }),
{
}

/// The rest is what whole blocks of eight octets leave: fewer than eight octets, and the end
/// of the input.
pub proof fn law_what_whole_blocks_leave(blocks: Seq<u8>, tail: Seq<u8>)
    requires
        blocks.len() % 8 == 0,
        tail.len() < 8,
    ensures
        rest_of(blocks + tail) == tail,
{
    let n = (blocks + tail).len() as int;
    assert(8 * (n / 8) == blocks.len());
    assert((blocks + tail).skip(blocks.len() as int) =~= tail);
}

/// Turning a word by some places and then by the others gives it back, and each bit moves
/// by that many places.
pub proof fn law_turning_loses_no_bit(x: u64)
    ensures
        rotated(rotated(x, 13), 51) == x,
        rotated(rotated(x, 16), 48) == x,
        rotated(rotated(x, 17), 47) == x,
        rotated(rotated(x, 21), 43) == x,
        rotated(rotated(x, 32), 32) == x,
        rotated(1, 13) == 0x2000,
        rotated(1, 16) == 0x1_0000,
        rotated(1, 17) == 0x2_0000,
        rotated(1, 21) == 0x20_0000,
        rotated(1, 32) == 0x1_0000_0000,
        rotated(0x8000_0000_0000_0000, 13) == 0x1000,
{
    assert((((x << 13) | (x >> 51)) << 51) | (((x << 13) | (x >> 51)) >> 13) == x) by (bit_vector);
    assert((((x << 16) | (x >> 48)) << 48) | (((x << 16) | (x >> 48)) >> 16) == x) by (bit_vector);
    assert((((x << 17) | (x >> 47)) << 47) | (((x << 17) | (x >> 47)) >> 17) == x) by (bit_vector);
    assert((((x << 21) | (x >> 43)) << 43) | (((x << 21) | (x >> 43)) >> 21) == x) by (bit_vector);
    assert((((x << 32) | (x >> 32)) << 32) | (((x << 32) | (x >> 32)) >> 32) == x) by (bit_vector);
    assert((1u64 << 13) | (1u64 >> 51) == 0x2000 && (1u64 << 16) | (1u64 >> 48) == 0x1_0000 && (1u64
        << 17) | (1u64 >> 47) == 0x2_0000 && (1u64 << 21) | (1u64 >> 43) == 0x20_0000 && (1u64 << 32)
        | (1u64 >> 32) == 0x1_0000_0000) by (bit_vector);
    assert((0x8000_0000_0000_0000u64 << 13) | (0x8000_0000_0000_0000u64 >> 51) == 0x1000)
        by (bit_vector);
}

/// Rounds follow one another: none leaves the state, and one more is one more round.
pub proof fn law_rounds_follow_one_another(s: SipState, n: nat)
    ensures
        rounds(s, 0) == s,
        rounds(s, n + 1) == round(rounds(s, n)),
{
}

} // verus!
