//! What becomes of a datagram, one at a time, in batches and beside questions that
//! are under way.

use vstd::arithmetic::power2::{lemma2_to64, lemma_pow2_pos, lemma_pow2_unfold, pow2};
use vstd::prelude::*;

use crate::limits::clamped;
use crate::transport::{ReactorDisposition, WireDisposition};

verus! {

/// The largest query that is looked at.
pub const MAX_UDP_REQUEST: usize = 4096;

/// How many datagrams one call receives where a worker has a socket to itself.
pub const FULL_UDP_BATCH: usize = 32;

/// How many where several workers read from one socket.
pub const SHARED_UDP_BATCH: usize = 16;

/// How many datagrams are taken before those under way are looked at again.
pub const ROUND_LIMIT: u32 = 64;

/// For how long answers under way are waited for at the end, in nanoseconds.
pub const REACTOR_DRAIN_BUDGET: u64 = 1_000_000_000;

/// After how many passes with nothing to do the end has come.
pub const DRAIN_IDLE_PASSES: u32 = 50;

/// Calls that received datagrams, and the datagrams they received.
#[derive(Clone, Copy, PartialEq, Eq, Structural, Debug)]
pub struct ReceiveCounters {
    pub batches: u64,
    pub datagrams: u64,
}

/// Counts one call. A counter that is full starts over.
pub fn note_recv_batch(counters: &mut ReceiveCounters, datagrams: u64)
    ensures
        final(counters).batches == (old(counters).batches + 1) % 0x1_0000_0000_0000_0000,
        final(counters).datagrams == (old(counters).datagrams + datagrams)
            % 0x1_0000_0000_0000_0000,
{
    counters.batches = counters.batches.wrapping_add(1);
    counters.datagrams = counters.datagrams.wrapping_add(datagrams);
}

pub fn recv_batch_counters(counters: &ReceiveCounters) -> (r: (u64, u64))
    ensures
        r == (counters.batches, counters.datagrams),
{
    (counters.batches, counters.datagrams)
}

/// How many datagrams one call receives: fewer where workers share a socket, so
/// that none of them starves.
pub fn batch_size_for(workers: usize, cpus: usize) -> (r: usize)
    ensures
        r == if workers > cpus && workers > 1 {
            SHARED_UDP_BATCH
        } else {
            FULL_UDP_BATCH
        },
{
    let cpus: usize = if cpus >= 1 {
        cpus
    } else {
        1
    };
    if workers > cpus {
        SHARED_UDP_BATCH
    } else {
        FULL_UDP_BATCH
    }
}

/// A whole header that is not marked as an answer.
pub open spec fn is_query(packet: Seq<u8>) -> bool {
    packet.len() >= 12 && packet[2] < 0x80
}

/// Whether a packet can be a query. What is marked as an answer is not answered:
/// two servers would never stop answering each other.
pub fn looks_like_query(packet: &[u8]) -> (r: bool)
    ensures
        r == is_query(packet@),
{
    packet.len() >= 12 && packet[2] < 0x80
}

/// The packet is looked at: it is no larger than a query may be, and it can be
/// one.
pub open spec fn is_admitted(packet: Seq<u8>) -> bool {
    packet.len() <= MAX_UDP_REQUEST && is_query(packet)
}

/// Whether the kernel cut the datagram or what came with it. A query with its end
/// missing is not the one that was sent.
pub fn received_message_is_truncated(flags: i32, cut: i32, control_cut: i32) -> (r: bool)
    ensures
        r == ((flags & (cut | control_cut)) != 0),
{
    (flags & (cut | control_cut)) != 0
}

/// What to do next with a datagram.
#[derive(Clone, Copy, PartialEq, Eq, Structural, Debug)]
pub enum DatagramStep {
    /// Ask the path that does not parse.
    TryWire,
    Parse,
    /// Ask for an answer to what cannot be parsed.
    AskUnparsable,
    /// Ask for an answer to the parsed query.
    Handle,
    /// Cut the answer down until it fits, and send it.
    EncodeAndSend,
    /// Send what was written.
    Send,
    /// Send nothing.
    Discard,
}

/// What came of it. Lengths are those of what was written for sending.
#[derive(Clone, Copy, PartialEq, Eq, Structural, Debug)]
pub enum DatagramEvent {
    Wire(WireDisposition, usize),
    Parsed,
    Malformed,
    NoAnswer,
    /// There is an answer.
    Answer,
    /// There is an answer, and it was encoded in that many octets, or not at all.
    Encoded(Option<usize>),
    /// The handler broke off.
    Failed,
}

pub open spec fn datagram_begin(packet: Seq<u8>) -> DatagramStep {
    if is_admitted(packet) {
        DatagramStep::TryWire
    } else {
        DatagramStep::Discard
    }
}

pub open spec fn datagram_after(step: DatagramStep, event: DatagramEvent) -> DatagramStep {
    match (step, event) {
        (DatagramStep::TryWire, DatagramEvent::Wire(d, n)) => match d {
            WireDisposition::Respond => if n > 0 {
                DatagramStep::Send
            } else {
                DatagramStep::Discard
            },
            WireDisposition::Drop => DatagramStep::Discard,
            WireDisposition::Fallback => DatagramStep::Parse,
        },
        (DatagramStep::Parse, DatagramEvent::Parsed) => DatagramStep::Handle,
        (DatagramStep::Parse, DatagramEvent::Malformed) => DatagramStep::AskUnparsable,
        (DatagramStep::AskUnparsable, DatagramEvent::Encoded(Some(n))) => if n > 0 {
            DatagramStep::Send
        } else {
            DatagramStep::Discard
        },
        (DatagramStep::Handle, DatagramEvent::Answer) => DatagramStep::EncodeAndSend,
        _ => DatagramStep::Discard,
    }
}

/// What to do first with a datagram.
pub fn process_datagram(packet: &[u8]) -> (r: DatagramStep)
    ensures
        r == datagram_begin(packet@),
{
    if packet.len() <= MAX_UDP_REQUEST && looks_like_query(packet) {
        DatagramStep::TryWire
    } else {
        DatagramStep::Discard
    }
}

/// What to do next with a datagram. Without parsing comes before parsing, and a
/// query that cannot be parsed is not dropped in silence.
pub fn datagram_next(step: DatagramStep, event: DatagramEvent) -> (r: DatagramStep)
    ensures
        r == datagram_after(step, event),
{
    match (step, event) {
        (DatagramStep::TryWire, DatagramEvent::Wire(d, n)) => match d {
            WireDisposition::Respond => if n > 0 {
                DatagramStep::Send
            } else {
                DatagramStep::Discard
            },
            WireDisposition::Drop => DatagramStep::Discard,
            WireDisposition::Fallback => DatagramStep::Parse,
        },
        (DatagramStep::Parse, DatagramEvent::Parsed) => DatagramStep::Handle,
        (DatagramStep::Parse, DatagramEvent::Malformed) => DatagramStep::AskUnparsable,
        (DatagramStep::AskUnparsable, DatagramEvent::Encoded(Some(n))) => if n > 0 {
            DatagramStep::Send
        } else {
            DatagramStep::Discard
        },
        (DatagramStep::Handle, DatagramEvent::Answer) => DatagramStep::EncodeAndSend,
        _ => DatagramStep::Discard,
    }
}

/// What is marked as an answer is never handed on, whatever else it holds.
pub proof fn law_answers_are_not_answered(packet: Seq<u8>)
    requires
        packet.len() >= 3,
        packet[2] >= 0x80,
    ensures
        datagram_begin(packet) == DatagramStep::Discard,
{
}

/// Nothing empty is sent.
pub proof fn law_no_empty_datagram_is_sent(step: DatagramStep, event: DatagramEvent)
    requires
        datagram_after(step, event) == DatagramStep::Send,
    ensures
        event matches DatagramEvent::Wire(_, n) ==> n > 0,
        event matches DatagramEvent::Encoded(n) ==> n matches Some(n) && n > 0,
        event is Wire || event is Encoded,
{
}

/// A query that cannot be parsed reaches the handler.
pub proof fn law_unparsable_queries_reach_the_handler(packet: Seq<u8>)
    requires
        is_admitted(packet),
    ensures
        datagram_begin(packet) == DatagramStep::TryWire,
        datagram_after(
            DatagramStep::TryWire,
            DatagramEvent::Wire(WireDisposition::Fallback, 0),
        ) == DatagramStep::Parse,
        datagram_after(DatagramStep::Parse, DatagramEvent::Malformed)
            == DatagramStep::AskUnparsable,
{
}

/// The datagrams of a batch that have an answer to send.
#[derive(Clone, Copy, PartialEq, Eq, Structural, Debug)]
pub struct SendQueue {
    pub sent: usize,
    pub queued: usize,
}

/// What came of a call that sends several.
#[derive(Clone, Copy, PartialEq, Eq, Structural, Debug)]
pub enum SendEvent {
    /// That many went out.
    Sent(usize),
    /// The call was interrupted before anything went out.
    Interrupted,
    /// The first of them could not be sent.
    Failed,
}

impl SendQueue {
    pub open spec fn after(self, event: SendEvent) -> SendQueue {
        match event {
            SendEvent::Sent(n) => SendQueue {
                sent: if n <= self.queued - self.sent {
                    (self.sent + n) as usize
                } else {
                    self.queued
                },
                ..self
            },
            SendEvent::Interrupted => self,
            SendEvent::Failed => SendQueue { sent: (self.sent + 1) as usize, ..self },
        }
    }

    /// Goes on behind what went out, or behind the one that could not be sent.
    pub fn advance(&mut self, event: SendEvent)
        requires
            old(self).sent < old(self).queued,
        ensures
            *final(self) == old(self).after(event),
            final(self).sent <= final(self).queued,
            !(event is Interrupted) && event != SendEvent::Sent(0) ==> final(self).sent > old(
                self,
            ).sent,
    {
        match event {
            SendEvent::Sent(n) => {
                if n <= self.queued - self.sent {
                    self.sent = self.sent + n;
                } else {
                    self.sent = self.queued;
                }
            },
            SendEvent::Interrupted => {},
            SendEvent::Failed => {
                self.sent = self.sent + 1;
            },
        }
    }
}

/// What the event loop does next.
#[derive(Clone, Copy, PartialEq, Eq, Structural, Debug)]
pub enum LoopStep {
    /// Collect what to wait for.
    Gather,
    /// Wait that many milliseconds at most.
    Wait(i32),
    /// Ask whether one more question can be taken on.
    AskCapacity,
    Receive,
    /// Ask the path that answers from memory without parsing.
    TryHit,
    /// Send what was written.
    Send,
    /// Hand the query over.
    Submit,
    /// Answer it the blocking way.
    Block,
    /// Let the answers that came in be read.
    Pump,
    /// Let time pass for the questions under way.
    Tick,
    /// Send all that is complete.
    Flush,
    /// Serve no more; finish what is under way.
    Drain,
}

/// What came of it.
#[derive(Clone, Copy, PartialEq, Eq, Structural, Debug)]
pub enum LoopEvent {
    /// The signal to stop was seen.
    Stop,
    /// The wait may last that many milliseconds.
    Gathered(i32),
    /// Whether anything is ready, and whether the listener is.
    Ready(bool, bool),
    Capacity(bool),
    /// A datagram came, and it is looked at or not.
    Received(bool),
    ReceiveFailed,
    Hit(WireDisposition, usize),
    Submitted(ReactorDisposition, usize),
    /// Whether there is something to send.
    Processed(bool),
    Done,
}

/// The loop that serves a socket while questions are under way.
#[derive(Clone, Copy, PartialEq, Eq, Structural, Debug)]
pub struct ReactorLoop {
    pub step: LoopStep,
    /// How many datagrams were taken since the last wait.
    pub taken: u32,
}

impl ReactorLoop {
    pub open spec fn at(self, step: LoopStep) -> ReactorLoop {
        ReactorLoop { step, ..self }
    }

    /// On to the next datagram, or to the questions under way once enough were
    /// taken.
    pub open spec fn onward(self) -> ReactorLoop {
        self.at(
            if self.taken < ROUND_LIMIT {
                LoopStep::AskCapacity
            } else {
                LoopStep::Pump
            },
        )
    }

    pub open spec fn after(self, event: LoopEvent) -> ReactorLoop {
        match (self.step, event) {
            (LoopStep::Gather, LoopEvent::Stop) => self.at(LoopStep::Drain),
            (LoopStep::Gather, LoopEvent::Gathered(ms)) => self.at(
                LoopStep::Wait(clamped(ms as int, 1, 500) as i32),
            ),
            (LoopStep::Wait(_), LoopEvent::Ready(any, listener)) => {
                let fresh = ReactorLoop { taken: 0, ..self };
                if any && listener {
                    fresh.at(LoopStep::AskCapacity)
                } else if any {
                    fresh.at(LoopStep::Pump)
                } else {
                    fresh.at(LoopStep::Tick)
                }
            },
            (LoopStep::AskCapacity, LoopEvent::Capacity(more)) => self.at(
                if more {
                    LoopStep::Receive
                } else {
                    LoopStep::Pump
                },
            ),
            (LoopStep::Receive, LoopEvent::Received(admitted)) => {
                let one = ReactorLoop { taken: (self.taken + 1) as u32, ..self };
                if admitted {
                    one.at(LoopStep::TryHit)
                } else {
                    one.onward()
                }
            },
            (LoopStep::Receive, _) => self.at(LoopStep::Pump),
            (LoopStep::TryHit, LoopEvent::Hit(d, n)) => match d {
                WireDisposition::Respond => if n > 0 {
                    self.at(LoopStep::Send)
                } else {
                    self.onward()
                },
                WireDisposition::Drop => self.onward(),
                WireDisposition::Fallback => self.at(LoopStep::Submit),
            },
            (LoopStep::Submit, LoopEvent::Submitted(d, n)) => match d {
                ReactorDisposition::Respond => if n > 0 {
                    self.at(LoopStep::Send)
                } else {
                    self.onward()
                },
                ReactorDisposition::Drop | ReactorDisposition::Submitted => self.onward(),
                ReactorDisposition::Fallback => self.at(LoopStep::Block),
            },
            (LoopStep::Block, LoopEvent::Processed(something)) => if something {
                self.at(LoopStep::Send)
            } else {
                self.onward()
            },
            (LoopStep::Send, _) => self.onward(),
            (LoopStep::TryHit, _) => self.onward(),
            (LoopStep::Submit, _) => self.onward(),
            (LoopStep::Block, _) => self.onward(),
            (LoopStep::AskCapacity, _) => self.at(LoopStep::Pump),
            (LoopStep::Pump, _) => self.at(LoopStep::Tick),
            (LoopStep::Tick, _) => self.at(LoopStep::Flush),
            (LoopStep::Flush, _) => self.at(LoopStep::Gather),
            (LoopStep::Drain, _) => self,
            (LoopStep::Gather, _) => self,
            (LoopStep::Wait(_), _) => self.at(LoopStep::Tick),
        }
    }

    pub fn new() -> (r: Self)
        ensures
            r == (ReactorLoop { step: LoopStep::Gather, taken: 0 }),
    {
        ReactorLoop { step: LoopStep::Gather, taken: 0 }
    }

    fn go(&mut self, step: LoopStep)
        ensures
            *final(self) == old(self).at(step),
    {
        self.step = step;
    }

    fn go_on(&mut self)
        ensures
            *final(self) == old(self).onward(),
    {
        self.step = if self.taken < ROUND_LIMIT {
            LoopStep::AskCapacity
        } else {
            LoopStep::Pump
        };
    }

    /// Moves on once a step is done.
    pub fn advance(&mut self, event: LoopEvent)
        requires
            old(self).step is Receive ==> old(self).taken < ROUND_LIMIT,
        ensures
            *final(self) == old(self).after(event),
    {
        match self.step {
            LoopStep::Gather => match event {
                LoopEvent::Stop => self.go(LoopStep::Drain),
                LoopEvent::Gathered(ms) => {
                    let wait: i32 = if ms < 1 {
                        1
                    } else if ms > 500 {
                        500
                    } else {
                        ms
                    };
                    self.go(LoopStep::Wait(wait))
                },
                _ => {},
            },
            LoopStep::Wait(_) => match event {
                LoopEvent::Ready(any, listener) => {
                    self.taken = 0;
                    if any && listener {
                        self.go(LoopStep::AskCapacity)
                    } else if any {
                        self.go(LoopStep::Pump)
                    } else {
                        self.go(LoopStep::Tick)
                    }
                },
                _ => self.go(LoopStep::Tick),
            },
            LoopStep::AskCapacity => match event {
                LoopEvent::Capacity(true) => self.go(LoopStep::Receive),
                _ => self.go(LoopStep::Pump),
            },
            LoopStep::Receive => match event {
                LoopEvent::Received(admitted) => {
                    self.taken = self.taken + 1;
                    if admitted {
                        self.go(LoopStep::TryHit)
                    } else {
                        self.go_on()
                    }
                },
                _ => self.go(LoopStep::Pump),
            },
            LoopStep::TryHit => match event {
                LoopEvent::Hit(WireDisposition::Respond, n) => if n > 0 {
                    self.go(LoopStep::Send)
                } else {
                    self.go_on()
                },
                LoopEvent::Hit(WireDisposition::Fallback, _) => self.go(LoopStep::Submit),
                _ => self.go_on(),
            },
            LoopStep::Submit => match event {
                LoopEvent::Submitted(ReactorDisposition::Respond, n) => if n > 0 {
                    self.go(LoopStep::Send)
                } else {
                    self.go_on()
                },
                LoopEvent::Submitted(ReactorDisposition::Fallback, _) => self.go(LoopStep::Block),
                _ => self.go_on(),
            },
            LoopStep::Block => match event {
                LoopEvent::Processed(true) => self.go(LoopStep::Send),
                _ => self.go_on(),
            },
            LoopStep::Send => self.go_on(),
            LoopStep::Pump => self.go(LoopStep::Tick),
            LoopStep::Tick => self.go(LoopStep::Flush),
            LoopStep::Flush => self.go(LoopStep::Gather),
            LoopStep::Drain => {},
        }
    }

    /// What holds of the loop at all times: no more datagrams were taken than a
    /// round allows, and one is only received while it allows more.
    pub open spec fn in_bounds(self) -> bool {
        &&& self.taken <= ROUND_LIMIT
        &&& self.step is Receive || self.step is AskCapacity ==> self.taken < ROUND_LIMIT
    }
}

/// The loop keeps its bounds: between two looks at the questions under way, no
/// more than a fixed number of datagrams is taken.
pub proof fn law_rounds_are_bounded(l: ReactorLoop, event: LoopEvent)
    requires
        l.in_bounds(),
    ensures
        l.after(event).in_bounds(),
{
}

/// A datagram is received only right after there was found to be room for the
/// question.
pub proof fn law_nothing_is_received_without_room(l: ReactorLoop, event: LoopEvent)
    requires
        l.after(event).step is Receive,
    ensures
        l.step is AskCapacity,
        event == LoopEvent::Capacity(true),
{
}

/// The end of the loop: answers that are still under way go out, for a while.
#[derive(Clone, Copy, PartialEq, Eq, Structural, Debug)]
pub struct DrainState {
    pub until: u64,
    pub idle_passes: u32,
}

impl DrainState {
    /// From now on, for as long as is allowed.
    pub fn new(now: u64) -> (r: Self)
        ensures
            r.until == clamped(now + REACTOR_DRAIN_BUDGET, 0, u64::MAX as int),
            r.idle_passes == 0,
    {
        DrainState { until: now.saturating_add(REACTOR_DRAIN_BUDGET), idle_passes: 0 }
    }

    pub open spec fn goes_on(self, now: u64) -> bool {
        now < self.until && self.idle_passes < DRAIN_IDLE_PASSES
    }

    /// Whether there is another pass.
    pub fn continues(&self, now: u64) -> (r: bool)
        ensures
            r == self.goes_on(now),
    {
        now < self.until && self.idle_passes < DRAIN_IDLE_PASSES
    }

    /// How long to wait in a pass, in milliseconds.
    pub fn wait(&self, deadline_ms: i32, now: u64) -> (r: i32)
        requires
            self.goes_on(now),
        ensures
            r == ({
                let left = clamped((self.until - now) / 1_000_000, 1, i32::MAX as int);
                let wanted = clamped(deadline_ms as int, 1, 50);
                if wanted < left {
                    wanted
                } else {
                    left
                }
            }),
    {
        let left: u64 = (self.until - now) / 1_000_000;
        let wanted: i32 = if deadline_ms < 1 {
            1
        } else if deadline_ms > 50 {
            50
        } else {
            deadline_ms
        };
        if left < 1 {
            1
        } else if left < wanted as u64 {
            left as i32
        } else {
            wanted
        }
    }

    /// Counts a pass: one with nothing to wait for and nothing to send counts as
    /// idle, any other one starts the count over.
    pub fn note_pass(&mut self, waited_for_any: bool, produced: bool)
        requires
            old(self).idle_passes < DRAIN_IDLE_PASSES,
        ensures
            final(self).until == old(self).until,
            final(self).idle_passes == if !waited_for_any && !produced {
                old(self).idle_passes + 1
            } else {
                0
            },
    {
        if !waited_for_any && !produced {
            self.idle_passes = self.idle_passes + 1;
        } else {
            self.idle_passes = 0;
        }
    }
}

/// Failures of one kind, of which only some are reported.
#[derive(Clone, Copy, PartialEq, Eq, Structural, Debug)]
pub struct Sampled {
    pub count: u64,
}

pub open spec fn is_power_of_two(n: int) -> bool {
    exists|e: nat| n == #[trigger] pow2(e)
}

proof fn lemma_half_of_a_power(n: int)
    requires
        n > 1,
        n % 2 == 0,
    ensures
        is_power_of_two(n) <==> is_power_of_two(n / 2),
{
    lemma2_to64();
    if is_power_of_two(n) {
        let e = choose|e: nat| n == #[trigger] pow2(e);
        assert(e > 0);
        lemma_pow2_unfold(e);
        assert(n / 2 == pow2((e - 1) as nat));
    }
    if is_power_of_two(n / 2) {
        let e = choose|e: nat| n / 2 == #[trigger] pow2(e);
        lemma_pow2_unfold(e + 1);
        assert(n == pow2(e + 1));
    }
}

proof fn lemma_odd_is_no_power(n: int)
    requires
        n % 2 == 1,
        n != 1,
    ensures
        !is_power_of_two(n),
{
    lemma2_to64();
    if is_power_of_two(n) {
        let e = choose|e: nat| n == #[trigger] pow2(e);
        if e > 0 {
            lemma_pow2_unfold(e);
            assert(n == 2 * pow2((e - 1) as nat));
        }
    }
}

fn power_of_two(n: u64) -> (r: bool)
    ensures
        r == is_power_of_two(n as int),
{
    proof {
        lemma2_to64();
    }
    if n == 0 {
        proof {
            if is_power_of_two(0) {
                let e = choose|e: nat| 0 == #[trigger] pow2(e);
                lemma_pow2_pos(e);
            }
        }
        return false;
    }
    let mut m: u64 = n;
    while m % 2 == 0
        invariant
            m > 0,
            is_power_of_two(m as int) == is_power_of_two(n as int),
        decreases m,
    {
        proof {
            lemma_half_of_a_power(m as int);
        }
        m = m / 2;
    }
    proof {
        if m != 1 {
            lemma_odd_is_no_power(m as int);
        } else {
            assert(pow2(0) == 1);
        }
    }
    m == 1
}

impl Sampled {
    /// Counts a failure. It is reported, with its number, where that is a power
    /// of two; a count that is full starts over.
    pub fn note(&mut self) -> (r: Option<u64>)
        ensures
            final(self).count == (old(self).count + 1) % 0x1_0000_0000_0000_0000,
            r == if is_power_of_two(final(self).count as int) {
                Some(final(self).count)
            } else {
                None
            },
    {
        self.count = self.count.wrapping_add(1);
        if power_of_two(self.count) {
            Some(self.count)
        } else {
            None
        }
    }
}

/// A datagram is looked at exactly if it has 12 to 4096 octets and the top bit of its
/// third octet, which marks an answer, is not set.
pub proof fn law_which_datagrams_are_looked_at(packet: Seq<u8>)
    ensures
        is_query(packet) <==> packet.len() >= 12 && packet[2] < 128,
        is_admitted(packet) <==> 12 <= packet.len() <= 4096 && packet[2] < 128,
        datagram_begin(packet) == DatagramStep::TryWire <==> 12 <= packet.len() <= 4096
            && packet[2] < 128,
        datagram_begin(packet) == DatagramStep::TryWire || datagram_begin(packet)
            == DatagramStep::Discard,
{
}

/// Where a datagram can go: an answer that was written without parsing goes out; a query
/// that this path leaves alone is parsed, and then answered in the fullest form that fits,
/// or, where it cannot be parsed, with whatever was written for that. Only a path that was
/// told to drop it, that wrote nothing or that broke off sends nothing.
pub proof fn law_every_query_gets_its_answer(n: usize, d: WireDisposition)
    ensures
        n > 0 ==> datagram_after(
            DatagramStep::TryWire,
            DatagramEvent::Wire(WireDisposition::Respond, n),
        ) == DatagramStep::Send,
        datagram_after(
            DatagramStep::TryWire,
            DatagramEvent::Wire(WireDisposition::Fallback, n),
        ) == DatagramStep::Parse,
        datagram_after(DatagramStep::TryWire, DatagramEvent::Wire(WireDisposition::Drop, n))
            == DatagramStep::Discard,
        datagram_after(DatagramStep::Parse, DatagramEvent::Parsed) == DatagramStep::Handle,
        datagram_after(DatagramStep::Parse, DatagramEvent::Malformed)
            == DatagramStep::AskUnparsable,
        datagram_after(DatagramStep::Handle, DatagramEvent::Answer) == DatagramStep::EncodeAndSend,
        n > 0 ==> datagram_after(DatagramStep::AskUnparsable, DatagramEvent::Encoded(Some(n)))
            == DatagramStep::Send,
        datagram_after(DatagramStep::AskUnparsable, DatagramEvent::NoAnswer)
            == DatagramStep::Discard,
        datagram_after(DatagramStep::AskUnparsable, DatagramEvent::Encoded(None))
            == DatagramStep::Discard,
        datagram_after(DatagramStep::Handle, DatagramEvent::NoAnswer) == DatagramStep::Discard,
        forall|step: DatagramStep|
            #[trigger] datagram_after(step, DatagramEvent::Failed) == DatagramStep::Discard,
        forall|event: DatagramEvent|
            #[trigger] datagram_after(DatagramStep::Discard, event) == DatagramStep::Discard,
{
}

/// What went out is not sent again and what did not go out is not skipped, but for one
/// that could not be sent: it alone is passed over.
pub proof fn law_each_datagram_of_a_batch_is_sent_once(q: SendQueue, n: usize)
    requires
        q.sent < q.queued,
    ensures
        q.sent + n <= q.queued ==> q.after(SendEvent::Sent(n)).sent == q.sent + n,
        q.sent + n >= q.queued ==> q.after(SendEvent::Sent(n)).sent == q.queued,
        q.after(SendEvent::Sent(n)).queued == q.queued,
        q.after(SendEvent::Interrupted) == q,
        q.after(SendEvent::Failed).sent == q.sent + 1,
        q.after(SendEvent::Failed).queued == q.queued,
{
}

/// One turn of the loop: it waits between 1 and 500 milliseconds, receives only where the
/// listener is ready, and reads the answers that came in, lets time pass and sends what is
/// complete before it waits again.
pub proof fn law_one_turn_of_the_loop(l: ReactorLoop, ms: i32, any: bool, listener: bool)
    ensures
        l.step is Gather ==> {
            let next = l.after(LoopEvent::Gathered(ms));
            &&& next.step matches LoopStep::Wait(w)
            &&& 1 <= w <= 500
            &&& 1 <= ms <= 500 ==> w == ms
            &&& ms > 500 ==> w == 500
            &&& ms < 1 ==> w == 1
            &&& next.taken == l.taken
        },
        l.step is Gather ==> l.after(LoopEvent::Stop).step is Drain,
        l.step is Wait ==> {
            let next = l.after(LoopEvent::Ready(any, listener));
            &&& next.taken == 0
            &&& any && listener ==> next.step is AskCapacity
            &&& any && !listener ==> next.step is Pump
            &&& !any ==> next.step is Tick
        },
        l.step is AskCapacity ==> l.after(LoopEvent::Capacity(true)).step is Receive && l.after(
            LoopEvent::Capacity(false),
        ).step is Pump,
        forall|event: LoopEvent|
            l.step is Pump ==> (#[trigger] l.after(event)).step is Tick && l.after(event).taken
                == l.taken,
        forall|event: LoopEvent|
            l.step is Tick ==> (#[trigger] l.after(event)).step is Flush && l.after(event).taken
                == l.taken,
        forall|event: LoopEvent|
            l.step is Flush ==> (#[trigger] l.after(event)).step is Gather && l.after(event).taken
                == l.taken,
        forall|event: LoopEvent| l.step is Drain ==> #[trigger] l.after(event) == l,
{
}

/// What the loop does with a datagram: one that is looked at is answered from memory, or
/// handed over, or answered the blocking way, in this order, and what was written goes out.
/// After each datagram the next one is taken, until 64 were, and then those under way are
/// looked at. Each datagram counts once.
pub proof fn law_what_the_loop_does_with_a_datagram(l: ReactorLoop, n: usize)
    requires
        l.taken <= 64,
    ensures
        ({
            let onward = |m: ReactorLoop|
                if m.taken < 64 {
                    m.step is AskCapacity
                } else {
                    m.step is Pump
                };
            &&& l.step is Receive ==> {
                &&& l.after(LoopEvent::Received(true)).step is TryHit
                &&& l.after(LoopEvent::Received(true)).taken == l.taken + 1
                &&& l.after(LoopEvent::Received(false)).taken == l.taken + 1
                &&& onward(l.after(LoopEvent::Received(false)))
                &&& l.after(LoopEvent::ReceiveFailed).step is Pump
            }
            &&& l.step is TryHit ==> {
                &&& n > 0 ==> l.after(LoopEvent::Hit(WireDisposition::Respond, n)).step is Send
                &&& l.after(LoopEvent::Hit(WireDisposition::Fallback, n)).step is Submit
                &&& onward(l.after(LoopEvent::Hit(WireDisposition::Drop, n)))
                &&& onward(l.after(LoopEvent::Hit(WireDisposition::Respond, 0)))
            }
            &&& l.step is Submit ==> {
                &&& n > 0 ==> l.after(
                    LoopEvent::Submitted(ReactorDisposition::Respond, n),
                ).step is Send
                &&& l.after(LoopEvent::Submitted(ReactorDisposition::Fallback, n)).step is Block
                &&& onward(l.after(LoopEvent::Submitted(ReactorDisposition::Submitted, n)))
                &&& onward(l.after(LoopEvent::Submitted(ReactorDisposition::Drop, n)))
                &&& onward(l.after(LoopEvent::Submitted(ReactorDisposition::Respond, 0)))
            }
            &&& l.step is Block ==> {
                &&& l.after(LoopEvent::Processed(true)).step is Send
                &&& onward(l.after(LoopEvent::Processed(false)))
            }
            &&& l.step is Send ==> onward(l.after(LoopEvent::Done))
        }),
        forall|event: LoopEvent|
            l.step is TryHit || l.step is Submit || l.step is Block || l.step is Send
                ==> (#[trigger] l.after(event)).taken == l.taken,
{
}

/// The end comes after one second, or after 50 passes in a row with nothing to do, and
/// not before either.
pub proof fn law_when_the_end_has_come(state: DrainState, now: u64)
    ensures
        now >= state.until ==> !state.goes_on(now),
        state.idle_passes >= 50 ==> !state.goes_on(now),
        now < state.until && state.idle_passes < 50 ==> state.goes_on(now),
        REACTOR_DRAIN_BUDGET == 1_000_000_000,
        FULL_UDP_BATCH == 32,
        SHARED_UDP_BATCH == 16,
{
}

/// The powers of two are 1 and what comes of doubling them, and nothing else is: an odd
/// number above 1 is none, and an even one is none unless its half is one.
pub proof fn law_which_failures_are_reported(n: int)
    ensures
        is_power_of_two(1),
        n >= 1 ==> (is_power_of_two(2 * n) <==> is_power_of_two(n)),
        n >= 1 ==> !is_power_of_two(2 * n + 1),
        !is_power_of_two(0),
{
    lemma2_to64();
    assert(pow2(0) == 1);
    if is_power_of_two(0) {
        let e = choose|e: nat| 0 == #[trigger] pow2(e);
        lemma_pow2_pos(e);
    }
    if n >= 1 {
        lemma_half_of_a_power(2 * n);
        lemma_odd_is_no_power(2 * n + 1);
    }
}

} // verus!
