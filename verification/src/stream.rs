//! What becomes of a connection: who is behind it, how its messages are read, and
//! what is done with each of them.

use vstd::multiset::Multiset;
use vstd::prelude::*;

use crate::addr::{IpAddr, SocketAddr};
use crate::connections::{reassigned, ConnectionGuard, ConnectionLimiter};
use crate::datagram::{is_query, looks_like_query};
use crate::limits::clamped;
use crate::net::{any_contains, covered, IpNet};
use crate::proxy::{parse, proxy_spec, ProxyParse};
use crate::transport::WireDisposition;

verus! {

/// For how long the header of a proxy is waited for, in nanoseconds.
pub const PROXY_HEADER_DEADLINE: u64 = 5_000_000_000;

/// For how long a message is waited for, in nanoseconds.
pub const DNS_MESSAGE_DEADLINE: u64 = 10_000_000_000;

/// After how many octets the header of a proxy is given up.
pub const PROXY_HEADER_MAX: usize = 256;

/// A message behind its length: two octets, most significant first.
pub open spec fn framed(payload: Seq<u8>) -> Seq<u8> {
    seq![(payload.len() as int / 256) as u8, (payload.len() as int % 256) as u8] + payload
}

/// The message behind its length. None where the length does not fit in two
/// octets.
pub fn dns_frame(payload: &[u8]) -> (r: Option<Vec<u8>>)
    ensures
        r is Some <==> payload@.len() <= 0xffff,
        r matches Some(f) ==> f@ == framed(payload@),
{
    if payload.len() > 0xffff {
        return None;
    }
    let mut out: Vec<u8> = Vec::new();
    out.push((payload.len() / 256) as u8);
    out.push((payload.len() % 256) as u8);
    let mut i: usize = 0;
    let ghost head = out@;
    assert(head + payload@.take(0) =~= head);
    while i < payload.len()
        invariant
            i <= payload@.len(),
            out@ == head + payload@.take(i as int),
        decreases payload.len() - i,
    {
        out.push(payload[i]);
        assert(out@ =~= head + payload@.take(i + 1));
        i = i + 1;
    }
    assert(payload@.take(payload@.len() as int) =~= payload@);
    assert(out@ =~= framed(payload@));
    Some(out)
}

/// What is left to write once the first call wrote some of a frame.
#[derive(Clone, Copy, PartialEq, Eq, Structural, Debug)]
pub enum FrameRest {
    /// The call wrote nothing.
    Failed,
    /// The length from that octet on, and the whole message.
    Prefix(usize),
    /// The message from that octet on.
    Body(usize),
}

pub open spec fn rest_after(written: int) -> FrameRest {
    if written == 0 {
        FrameRest::Failed
    } else if written < 2 {
        FrameRest::Prefix(written as usize)
    } else {
        FrameRest::Body((written - 2) as usize)
    }
}

pub fn frame_rest(written: usize) -> (r: FrameRest)
    ensures
        r == rest_after(written as int),
{
    if written == 0 {
        FrameRest::Failed
    } else if written < 2 {
        FrameRest::Prefix(written)
    } else {
        FrameRest::Body(written - 2)
    }
}

/// However much the first call wrote, what follows makes the frame whole.
pub proof fn law_a_short_write_is_completed(payload: Seq<u8>, written: int)
    requires
        payload.len() <= 0xffff,
        0 < written <= payload.len() + 2,
    ensures
        ({
            let whole = framed(payload);
            let prefix = whole.take(2);
            let rest = match rest_after(written) {
                FrameRest::Failed => Seq::empty(),
                FrameRest::Prefix(k) => prefix.skip(k as int) + payload,
                FrameRest::Body(k) => payload.skip(k as int),
            };
            whole.take(written) + rest == whole
        }),
{
    let whole = framed(payload);
    let prefix = whole.take(2);
    if written < 2 {
        assert(whole.take(written) + (prefix.skip(written) + payload) =~= whole);
    } else {
        assert(whole.take(written) + payload.skip(written - 2) =~= whole);
    }
}

/// What a read gave.
#[derive(Clone, Copy, PartialEq, Eq, Structural, Debug)]
pub enum ReadEvent {
    /// That many octets.
    Octets(usize),
    Closed,
    NotReady,
    Failed,
}

#[derive(Clone, Copy, PartialEq, Eq, Structural, Debug)]
pub enum ReadStep {
    /// All is there.
    Done,
    /// Read on.
    Read,
    /// Give the connection up.
    Abort,
}

/// A number of octets to read until a point in time. The time does not start over
/// with each octet, so that one who sends them slowly gains nothing.
#[derive(Clone, Copy, PartialEq, Eq, Structural, Debug)]
pub struct ExactRead {
    pub want: usize,
    pub got: usize,
    pub deadline: u64,
}

impl ExactRead {
    pub open spec fn plan(self, now: u64, stop: bool) -> ReadStep {
        if self.got >= self.want {
            ReadStep::Done
        } else if stop || now >= self.deadline {
            ReadStep::Abort
        } else {
            ReadStep::Read
        }
    }

    /// What a read that ended at `now` leaves: none where the connection is given
    /// up.
    pub open spec fn after(self, event: ReadEvent, now: u64) -> Option<ExactRead> {
        match event {
            ReadEvent::Octets(n) => if n == 0 || now >= self.deadline {
                None
            } else {
                Some(ExactRead { got: (self.got + n) as usize, ..self })
            },
            ReadEvent::NotReady => Some(self),
            ReadEvent::Closed | ReadEvent::Failed => None,
        }
    }

    pub fn next(&self, now: u64, stop: bool) -> (r: ReadStep)
        ensures
            r == self.plan(now, stop),
    {
        if self.got >= self.want {
            ReadStep::Done
        } else if stop || now >= self.deadline {
            ReadStep::Abort
        } else {
            ReadStep::Read
        }
    }

    /// Takes in what a read gave. False: the connection is given up.
    pub fn read_exact_until(&mut self, event: ReadEvent, now: u64) -> (r: bool)
        requires
            old(self).got <= old(self).want,
            event matches ReadEvent::Octets(n) ==> n <= old(self).want - old(self).got,
        ensures
            r == old(self).after(event, now) is Some,
            r ==> old(self).after(event, now) == Some(*final(self)),
            !r ==> *final(self) == *old(self),
            final(self).got <= final(self).want,
    {
        match event {
            ReadEvent::Octets(n) => {
                if n == 0 || now >= self.deadline {
                    return false;
                }
                self.got = self.got + n;
                true
            },
            ReadEvent::NotReady => true,
            ReadEvent::Closed | ReadEvent::Failed => false,
        }
    }
}

/// The point in time by which a message that starts now has to be there.
pub fn message_deadline(now: u64) -> (r: u64)
    ensures
        r == clamped(now + DNS_MESSAGE_DEADLINE, 0, u64::MAX as int),
{
    now.saturating_add(DNS_MESSAGE_DEADLINE)
}

/// Nothing that comes after the point in time counts, however it is spread: once
/// it has passed, a read that is not done is given up.
pub proof fn law_a_deadline_is_final(read: ExactRead, event: ReadEvent, now: u64, stop: bool)
    requires
        read.got < read.want,
        now >= read.deadline,
    ensures
        read.plan(now, stop) == ReadStep::Abort,
        read.after(event, now) matches Some(next) ==> next == read,
{
}

/// What is done with a new connection.
#[derive(Clone, Copy, PartialEq, Eq, Structural, Debug)]
pub enum Admission {
    Serve,
    /// The header of the proxy comes first.
    ReadHeader,
    Refuse,
}

pub open spec fn admission_of(peer: SocketAddr, proxy_protocol: bool, trusted: Seq<IpNet>) -> Admission {
    if !proxy_protocol {
        Admission::Serve
    } else if covered(trusted, peer.ip) {
        Admission::ReadHeader
    } else {
        Admission::Refuse
    }
}

/// Whether a header from this peer is believed.
pub fn trusted_peer(peer: SocketAddr, trusted: &Vec<IpNet>) -> (r: bool)
    ensures
        r == covered(trusted@, peer.ip),
{
    any_contains(trusted, &peer.ip)
}

/// Behind a proxy only those that are trusted are served: anybody else could name
/// any client.
pub fn admission(peer: SocketAddr, proxy_protocol: bool, trusted: &Vec<IpNet>) -> (r: Admission)
    ensures
        r == admission_of(peer, proxy_protocol, trusted@),
{
    if !proxy_protocol {
        Admission::Serve
    } else if trusted_peer(peer, trusted) {
        Admission::ReadHeader
    } else {
        Admission::Refuse
    }
}

/// What reading the header came to.
#[derive(Clone, Copy, PartialEq, Eq, Structural, Debug)]
pub enum HeaderStep {
    More,
    /// The client that the proxy speaks for.
    Client(SocketAddr),
    /// A connection of the proxy's own.
    Own,
    Reject,
}

/// What reading one octet gave.
#[derive(Clone, Copy, PartialEq, Eq, Structural, Debug)]
pub enum HeaderEvent {
    Octet(u8),
    Closed,
    NotReady,
    Failed,
}

/// The header as far as it was read. It is read octet by octet, so that nothing
/// behind it is taken.
pub struct HeaderRead {
    pub buf: Vec<u8>,
    pub deadline: u64,
}

pub open spec fn verdict_step(p: ProxyParse) -> HeaderStep {
    match p {
        ProxyParse::Incomplete => HeaderStep::More,
        ProxyParse::Addr(a, _) => HeaderStep::Client(a),
        ProxyParse::Local(_) => HeaderStep::Own,
        ProxyParse::NotProxy => HeaderStep::Reject,
    }
}

impl HeaderRead {
    pub fn new(now: u64) -> (r: Self)
        ensures
            r.buf@.len() == 0,
            r.deadline == clamped(now + PROXY_HEADER_DEADLINE, 0, u64::MAX as int),
    {
        HeaderRead { buf: Vec::new(), deadline: now.saturating_add(PROXY_HEADER_DEADLINE) }
    }

    /// Whether to read on: in time, and while there are fewer octets than a header
    /// may have.
    pub fn may_read(&self, now: u64) -> (r: bool)
        ensures
            r == (now < self.deadline && self.buf@.len() < PROXY_HEADER_MAX),
    {
        now < self.deadline && self.buf.len() < PROXY_HEADER_MAX
    }

    pub open spec fn step(buf: Seq<u8>, deadline: u64, event: HeaderEvent, now: u64, stop: bool) -> HeaderStep {
        match event {
            HeaderEvent::Octet(b) => if now >= deadline {
                HeaderStep::Reject
            } else {
                verdict_step(proxy_spec(buf.push(b)))
            },
            HeaderEvent::NotReady => if stop {
                HeaderStep::Reject
            } else {
                HeaderStep::More
            },
            HeaderEvent::Closed | HeaderEvent::Failed => HeaderStep::Reject,
        }
    }

    /// Takes in what reading one octet gave.
    pub fn read_proxy_header(&mut self, event: HeaderEvent, now: u64, stop: bool) -> (r: HeaderStep)
        ensures
            r == Self::step(old(self).buf@, old(self).deadline, event, now, stop),
            final(self).deadline == old(self).deadline,
            final(self).buf@ == match event {
                HeaderEvent::Octet(b) => if now >= old(self).deadline {
                    old(self).buf@
                } else {
                    old(self).buf@.push(b)
                },
                _ => old(self).buf@,
            },
    {
        match event {
            HeaderEvent::Octet(b) => {
                if now >= self.deadline {
                    return HeaderStep::Reject;
                }
                self.buf.push(b);
                match parse(self.buf.as_slice()) {
                    ProxyParse::Incomplete => HeaderStep::More,
                    ProxyParse::Addr(a, _) => HeaderStep::Client(a),
                    ProxyParse::Local(_) => HeaderStep::Own,
                    ProxyParse::NotProxy => HeaderStep::Reject,
                }
            },
            HeaderEvent::NotReady => {
                if stop {
                    HeaderStep::Reject
                } else {
                    HeaderStep::More
                }
            },
            HeaderEvent::Closed | HeaderEvent::Failed => HeaderStep::Reject,
        }
    }
}

/// The header ends with the octet that completes it: an octet that is read as part
/// of it was needed, so that what follows is left for the messages.
pub proof fn law_nothing_behind_the_header_is_taken(buf: Seq<u8>, b: u8)
    requires
        proxy_spec(buf) is Incomplete,
        proxy_spec(buf.push(b)) is Addr || proxy_spec(buf.push(b)) is Local,
    ensures
        proxy_spec(buf.push(b)) matches ProxyParse::Addr(_, n) ==> n == buf.len() + 1,
        proxy_spec(buf.push(b)) matches ProxyParse::Local(n) ==> n == buf.len() + 1,
{
    crate::proxy::lemma_verdict_needs_last_octet(buf, b);
}

/// Who a connection is served for after its header, what the connections are counted for
/// then, and what this one counts for.
pub open spec fn adoption(
    open: Multiset<IpAddr>,
    counted: IpAddr,
    limit: int,
    peer: SocketAddr,
    step: HeaderStep,
) -> (Option<SocketAddr>, Multiset<IpAddr>, IpAddr) {
    match step {
        HeaderStep::Client(client) => {
            let moved = reassigned(open, counted, client.ip, limit);
            (
                if moved.2 {
                    Some(client)
                } else {
                    None
                },
                moved.0,
                moved.1,
            )
        },
        HeaderStep::Own => (Some(peer), open, counted),
        HeaderStep::More | HeaderStep::Reject => (None, open, counted),
    }
}

/// Goes over to the client that the header names, and counts the connection for
/// it from now on. None: the connection is closed, since there was no header or
/// since the client has as many connections as it may have.
pub fn adopt_client(
    limiter: &mut ConnectionLimiter,
    guard: &mut ConnectionGuard,
    peer: SocketAddr,
    step: HeaderStep,
) -> (r: Option<SocketAddr>)
    requires
        old(limiter)@.count(old(guard).address()) >= 1,
    ensures
        final(limiter).total_limit() == old(limiter).total_limit(),
        final(limiter).address_limit() == old(limiter).address_limit(),
        (r, final(limiter)@, final(guard).address()) == adoption(
            old(limiter)@,
            old(guard).address(),
            old(limiter).address_limit(),
            peer,
            step,
        ),
{
    match step {
        HeaderStep::Client(client) => {
            if guard.reassign_ip(limiter, client.ip) {
                Some(client)
            } else {
                None
            }
        },
        HeaderStep::Own => Some(peer),
        HeaderStep::More | HeaderStep::Reject => None,
    }
}

/// What is done next on a connection.
#[derive(Clone, Copy, PartialEq, Eq, Structural, Debug)]
pub enum ServeStep {
    /// Read the header of the proxy, and go over to the client that it names.
    ReadHeader,
    /// Read the length of the next message.
    ReadLength,
    /// Read a message of that many octets, until the same point in time.
    ReadBody(usize),
    /// Ask the path that does not parse.
    TryWire,
    /// Send what was written, then go on with the next message.
    Send,
    Parse,
    /// Ask for an answer to what cannot be parsed.
    AskUnparsable,
    /// Ask for an answer that is encoded already.
    TryPreencoded,
    /// Ask for the answers one by one.
    Stream,
    Close,
}

/// What came of it.
#[derive(Clone, Copy, PartialEq, Eq, Structural, Debug)]
pub enum ServeEvent {
    /// The signal to stop was seen, or reading was given up.
    Stopped,
    /// Who the connection is served for, if it is served at all.
    Adopted(Option<SocketAddr>),
    Length(u8, u8),
    Body,
    Wire(WireDisposition),
    /// Whether it went out.
    Sent(bool),
    /// Whether the message is marked as an answer.
    Parsed(bool),
    Malformed,
    /// There is no answer, or one that cannot be encoded.
    NoAnswer,
    /// There is an answer, and it was encoded.
    Answer,
    /// There is none; or there is one, and it went out or not.
    Preencoded(Option<bool>),
    /// Whether all of them went out.
    Streamed(bool),
}

/// What a new connection begins with.
pub open spec fn first_step(a: Admission) -> ServeStep {
    match a {
        Admission::Serve => ServeStep::ReadLength,
        Admission::ReadHeader => ServeStep::ReadHeader,
        Admission::Refuse => ServeStep::Close,
    }
}

/// What a new connection begins with: with its messages, with the header of the proxy,
/// or with its end.
pub fn serve_first(a: Admission) -> (r: ServeStep)
    ensures
        r == first_step(a),
{
    match a {
        Admission::Serve => ServeStep::ReadLength,
        Admission::ReadHeader => ServeStep::ReadHeader,
        Admission::Refuse => ServeStep::Close,
    }
}

pub open spec fn serve_after(step: ServeStep, event: ServeEvent, body: Seq<u8>) -> ServeStep {
    match (step, event) {
        (ServeStep::ReadHeader, ServeEvent::Adopted(Some(_))) => ServeStep::ReadLength,
        (ServeStep::ReadLength, ServeEvent::Length(a, b)) => if a == 0 && b == 0 {
            ServeStep::Close
        } else {
            ServeStep::ReadBody((a * 256 + b) as usize)
        },
        (ServeStep::ReadBody(_), ServeEvent::Body) => ServeStep::TryWire,
        (ServeStep::TryWire, ServeEvent::Wire(d)) => match d {
            WireDisposition::Respond => ServeStep::Send,
            WireDisposition::Drop => ServeStep::Close,
            WireDisposition::Fallback => ServeStep::Parse,
        },
        (ServeStep::Send, ServeEvent::Sent(true)) => ServeStep::ReadLength,
        (ServeStep::Parse, ServeEvent::Malformed) => if is_query(body) {
            ServeStep::AskUnparsable
        } else {
            ServeStep::ReadLength
        },
        (ServeStep::Parse, ServeEvent::Parsed(false)) => ServeStep::TryPreencoded,
        (ServeStep::AskUnparsable, ServeEvent::NoAnswer) => ServeStep::ReadLength,
        (ServeStep::AskUnparsable, ServeEvent::Answer) => ServeStep::Send,
        (ServeStep::TryPreencoded, ServeEvent::Preencoded(None)) => ServeStep::Stream,
        (ServeStep::TryPreencoded, ServeEvent::Preencoded(Some(true))) => ServeStep::ReadLength,
        (ServeStep::Stream, ServeEvent::Streamed(true)) => ServeStep::ReadLength,
        _ => ServeStep::Close,
    }
}

/// What is done next on a connection. `body` is the message that was read last.
pub fn handle_conn(step: ServeStep, event: ServeEvent, body: &[u8]) -> (r: ServeStep)
    ensures
        r == serve_after(step, event, body@),
{
    match (step, event) {
        (ServeStep::ReadHeader, ServeEvent::Adopted(Some(_))) => ServeStep::ReadLength,
        (ServeStep::ReadLength, ServeEvent::Length(a, b)) => if a == 0 && b == 0 {
            ServeStep::Close
        } else {
            ServeStep::ReadBody(a as usize * 256 + b as usize)
        },
        (ServeStep::ReadBody(_), ServeEvent::Body) => ServeStep::TryWire,
        (ServeStep::TryWire, ServeEvent::Wire(d)) => match d {
            WireDisposition::Respond => ServeStep::Send,
            WireDisposition::Drop => ServeStep::Close,
            WireDisposition::Fallback => ServeStep::Parse,
        },
        (ServeStep::Send, ServeEvent::Sent(true)) => ServeStep::ReadLength,
        (ServeStep::Parse, ServeEvent::Malformed) => if looks_like_query(body) {
            ServeStep::AskUnparsable
        } else {
            ServeStep::ReadLength
        },
        (ServeStep::Parse, ServeEvent::Parsed(false)) => ServeStep::TryPreencoded,
        (ServeStep::AskUnparsable, ServeEvent::NoAnswer) => ServeStep::ReadLength,
        (ServeStep::AskUnparsable, ServeEvent::Answer) => ServeStep::Send,
        (ServeStep::TryPreencoded, ServeEvent::Preencoded(None)) => ServeStep::Stream,
        (ServeStep::TryPreencoded, ServeEvent::Preencoded(Some(true))) => ServeStep::ReadLength,
        (ServeStep::Stream, ServeEvent::Streamed(true)) => ServeStep::ReadLength,
        _ => ServeStep::Close,
    }
}

/// A message that cannot be parsed does not end the connection: its length says
/// where the next one starts. It is answered or passed over, and unless the answer
/// cannot be sent, the next message is read.
pub proof fn law_a_malformed_message_does_not_end_the_connection(body: Seq<u8>, event: ServeEvent)
    requires
        event is NoAnswer || event is Answer,
    ensures
        ({
            let next = serve_after(ServeStep::Parse, ServeEvent::Malformed, body);
            &&& next == ServeStep::ReadLength || next == ServeStep::AskUnparsable
            &&& next == ServeStep::AskUnparsable ==> {
                let then = serve_after(next, event, body);
                ||| then == ServeStep::ReadLength
                ||| then == ServeStep::Send && serve_after(then, ServeEvent::Sent(true), body)
                    == ServeStep::ReadLength
            }
        }),
{
}

/// A message that turns out to be marked as an answer once it is parsed ends the
/// connection: no answer to it is asked for.
pub proof fn law_an_answer_ends_the_connection(body: Seq<u8>)
    ensures
        serve_after(ServeStep::Parse, ServeEvent::Parsed(true), body) == ServeStep::Close,
{
}

/// Nothing is sent and nothing is asked once the connection is to be closed.
pub proof fn law_a_closed_connection_stays_closed(event: ServeEvent, body: Seq<u8>)
    ensures
        serve_after(ServeStep::Close, event, body) == ServeStep::Close,
{
}

/// What is done on a connection after the given events, each with the message that was
/// read last.
pub open spec fn served(step: ServeStep, events: Seq<(ServeEvent, Seq<u8>)>) -> ServeStep
    decreases events.len(),
{
    if events.len() == 0 {
        step
    } else {
        serve_after(served(step, events.drop_last()), events.last().0, events.last().1)
    }
}

proof fn lemma_closed_for_good(events: Seq<(ServeEvent, Seq<u8>)>)
    ensures
        served(ServeStep::Close, events) == ServeStep::Close,
    decreases events.len(),
{
    if events.len() > 0 {
        lemma_closed_for_good(events.drop_last());
    }
}

/// Behind a proxy, the connection of a peer that is not trusted is only ever closed:
/// nothing of it is read, and nothing is asked or sent for it.
pub proof fn law_an_untrusted_peer_is_only_closed(
    peer: SocketAddr,
    trusted: Seq<IpNet>,
    events: Seq<(ServeEvent, Seq<u8>)>,
)
    requires
        !covered(trusted, peer.ip),
    ensures
        served(first_step(admission_of(peer, true, trusted)), events) == ServeStep::Close,
{
    lemma_closed_for_good(events);
}

/// Behind a proxy, no message is read before a header was accepted. A header that is
/// rejected or does not come to its end closes the connection for good, and so does one
/// that names a client with as many connections as it may have.
pub proof fn law_no_message_is_read_before_the_header(
    peer: SocketAddr,
    trusted: Seq<IpNet>,
    open: Multiset<IpAddr>,
    counted: IpAddr,
    limit: int,
    header: HeaderStep,
    body: Seq<u8>,
    events: Seq<(ServeEvent, Seq<u8>)>,
)
    ensures
        first_step(admission_of(peer, true, trusted)) != ServeStep::ReadLength,
        ({
            let adopted = adoption(open, counted, limit, peer, header).0;
            let next = serve_after(ServeStep::ReadHeader, ServeEvent::Adopted(adopted), body);
            &&& next == ServeStep::ReadLength <==> adopted is Some
            &&& next != ServeStep::ReadLength ==> served(next, events) == ServeStep::Close
            &&& header is Reject || header is More ==> adopted is None
            &&& header matches HeaderStep::Client(c) ==> (c.ip != counted && open.count(c.ip) >= limit
                ==> adopted is None)
        }),
        forall|event: ServeEvent|
            !(event is Adopted) ==> #[trigger] serve_after(ServeStep::ReadHeader, event, body)
                == ServeStep::Close,
{
    lemma_closed_for_good(events);
}

/// How one of several answers goes out.
#[derive(Clone, Copy, PartialEq, Eq, Structural, Debug)]
pub enum EmitStep {
    Encode,
    /// Encode a server failure in its place.
    EncodeFailure,
    Send,
    /// It went out.
    Sent,
    /// The connection is given up.
    Abort,
}

/// What came of encoding or sending it.
#[derive(Clone, Copy, PartialEq, Eq, Structural, Debug)]
pub enum EmitEvent {
    /// The number of octets, where it could be encoded.
    Encoded(Option<usize>),
    Sent(bool),
}

pub open spec fn emit_after(step: EmitStep, event: EmitEvent) -> EmitStep {
    match (step, event) {
        (EmitStep::Encode, EmitEvent::Encoded(None)) => EmitStep::EncodeFailure,
        (EmitStep::Encode | EmitStep::EncodeFailure, EmitEvent::Encoded(Some(n))) => if n <= 0xffff {
            EmitStep::Send
        } else {
            EmitStep::Abort
        },
        (EmitStep::Send, EmitEvent::Sent(true)) => EmitStep::Sent,
        _ => EmitStep::Abort,
    }
}

/// What is done next with one of several answers. One that cannot be encoded is
/// replaced by a server failure, so that the client need not wait in vain.
pub fn emit_next(step: EmitStep, event: EmitEvent) -> (r: EmitStep)
    ensures
        r == emit_after(step, event),
{
    match (step, event) {
        (EmitStep::Encode, EmitEvent::Encoded(None)) => EmitStep::EncodeFailure,
        (EmitStep::Encode, EmitEvent::Encoded(Some(n))) => if n <= 0xffff {
            EmitStep::Send
        } else {
            EmitStep::Abort
        },
        (EmitStep::EncodeFailure, EmitEvent::Encoded(Some(n))) => if n <= 0xffff {
            EmitStep::Send
        } else {
            EmitStep::Abort
        },
        (EmitStep::Send, EmitEvent::Sent(true)) => EmitStep::Sent,
        _ => EmitStep::Abort,
    }
}

/// What is sent has a length that fits in front of it.
pub proof fn law_what_is_sent_can_be_framed(step: EmitStep, event: EmitEvent)
    requires
        emit_after(step, event) == EmitStep::Send,
    ensures
        event matches EmitEvent::Encoded(n) && n matches Some(n) && n <= 0xffff,
{
}

/// For how long to pause after a listener had nothing: no longer than ten
/// milliseconds.
pub fn accept_pause(poll: u64) -> (r: u64)
    ensures
        r == clamped(poll as int, 0, 10_000_000),
{
    if poll <= 10_000_000 {
        poll
    } else {
        10_000_000
    }
}

/// A wait in whole milliseconds, as the kernel takes it: at least one.
pub fn wait_millis(timeout: u64) -> (r: i32)
    ensures
        r == clamped(timeout as int / 1_000_000, 1, i32::MAX as int),
{
    let ms: u64 = timeout / 1_000_000;
    if ms < 1 {
        1
    } else if ms > 0x7fff_ffff {
        0x7fff_ffff
    } else {
        ms as i32
    }
}

/// A frame is the length in two octets, most significant first, and then the message as it
/// is: reading the length and then that many octets gives the message back.
pub proof fn law_a_frame_is_read_back(payload: Seq<u8>, more: Seq<u8>)
    requires
        payload.len() <= 0xffff,
    ensures
        ({
            let s = framed(payload) + more;
            let n = s[0] * 256 + s[1];
            &&& framed(payload).len() == payload.len() + 2
            &&& n == payload.len()
            &&& s.subrange(2, 2 + n) == payload
            &&& s.skip(2 + n) == more
            &&& n > 0 ==> serve_after(
                ServeStep::ReadLength,
                ServeEvent::Length(s[0], s[1]),
                payload,
            ) == ServeStep::ReadBody(n as usize)
        }),
{
    let s = framed(payload) + more;
    assert(s[0] * 256 + s[1] == payload.len());
    assert(s.subrange(2, 2 + payload.len() as int) =~= payload);
    assert(s.skip(2 + payload.len() as int) =~= more);
}

/// A read goes on until all octets are there, as long as there is time and no signal to
/// stop: what is there already counts although the time is over.
pub proof fn law_a_read_in_time_is_completed(
    read: ExactRead,
    n: usize,
    now: u64,
    stop: bool,
)
    requires
        read.got <= read.want,
        n <= read.want - read.got,
    ensures
        read.plan(now, stop) == ReadStep::Done <==> read.got == read.want,
        read.got < read.want && now < read.deadline && !stop ==> read.plan(now, stop)
            == ReadStep::Read,
        read.got < read.want && stop ==> read.plan(now, stop) == ReadStep::Abort,
        now < read.deadline && n > 0 ==> read.after(ReadEvent::Octets(n), now) == Some(
            ExactRead { want: read.want, got: (read.got + n) as usize, deadline: read.deadline },
        ),
        read.after(ReadEvent::Octets(0), now) is None,
        read.after(ReadEvent::NotReady, now) == Some(read),
        read.after(ReadEvent::Closed, now) is None,
        read.after(ReadEvent::Failed, now) is None,
{
}

/// Without a proxy everybody is served. Behind one, those that are trusted are heard, and
/// nobody else.
pub proof fn law_who_is_served(peer: SocketAddr, trusted: Seq<IpNet>)
    ensures
        first_step(admission_of(peer, false, trusted)) == ServeStep::ReadLength,
        covered(trusted, peer.ip) ==> first_step(admission_of(peer, true, trusted))
            == ServeStep::ReadHeader,
        !covered(trusted, peer.ip) ==> first_step(admission_of(peer, true, trusted))
            == ServeStep::Close,
        admission_of(peer, false, trusted) == Admission::Serve,
        covered(trusted, peer.ip) ==> admission_of(peer, true, trusted) == Admission::ReadHeader,
{
}

/// What is read of a header in time decides as soon as it is complete: the client that it
/// names is taken over as it stands there, and a connection of the proxy's own stays the
/// proxy's. What is no header, comes too late or breaks off is rejected.
pub proof fn law_a_header_in_time_is_taken(
    buf: Seq<u8>,
    b: u8,
    deadline: u64,
    now: u64,
    stop: bool,
)
    ensures
        now < deadline ==> {
            let step = HeaderRead::step(buf, deadline, HeaderEvent::Octet(b), now, stop);
            match proxy_spec(buf.push(b)) {
                ProxyParse::Addr(a, _) => step == HeaderStep::Client(a),
                ProxyParse::Local(_) => step == HeaderStep::Own,
                ProxyParse::Incomplete => step == HeaderStep::More,
                ProxyParse::NotProxy => step == HeaderStep::Reject,
            }
        },
        now >= deadline ==> HeaderRead::step(buf, deadline, HeaderEvent::Octet(b), now, stop)
            == HeaderStep::Reject,
        HeaderRead::step(buf, deadline, HeaderEvent::NotReady, now, false) == HeaderStep::More,
        HeaderRead::step(buf, deadline, HeaderEvent::NotReady, now, true) == HeaderStep::Reject,
        HeaderRead::step(buf, deadline, HeaderEvent::Closed, now, stop) == HeaderStep::Reject,
        HeaderRead::step(buf, deadline, HeaderEvent::Failed, now, stop) == HeaderStep::Reject,
{
}

/// A client with room for one more connection is served, and the connection counts for it
/// from then on; the proxy's own connection is served for the proxy and counts as before.
/// Wherever a connection is not served, nothing changes.
pub proof fn law_a_named_client_is_served(
    open: Multiset<IpAddr>,
    counted: IpAddr,
    limit: int,
    peer: SocketAddr,
    client: SocketAddr,
)
    requires
        open.count(counted) >= 1,
    ensures
        ({
            let (who, o, c) = adoption(open, counted, limit, peer, HeaderStep::Client(client));
            &&& who == Some(client) <==> (client.ip == counted || open.count(client.ip) < limit)
            &&& who is None || who == Some(client)
            &&& who is Some ==> c == client.ip
            &&& who is Some && client.ip != counted ==> o.count(client.ip) == open.count(client.ip)
                + 1 && o.count(counted) == open.count(counted) - 1
            &&& who is None ==> o == open && c == counted
        }),
        adoption(open, counted, limit, peer, HeaderStep::Own) == (Some(peer), open, counted),
        adoption(open, counted, limit, peer, HeaderStep::More) == (
            None::<SocketAddr>,
            open,
            counted,
        ),
        adoption(open, counted, limit, peer, HeaderStep::Reject) == (
            None::<SocketAddr>,
            open,
            counted,
        ),
{
    crate::connections::law_when_a_connection_changes_its_address(open, counted, client.ip, limit);
}

/// The way of a query on a connection: its length, its octets, the path that does not
/// parse, and, where that one leaves it alone, the parsed query, first with an answer that
/// is encoded already and then with answers one by one. Once the answer went out, the next
/// message is read. Whatever cannot be sent, an empty length and the signal to stop end the
/// connection.
pub proof fn law_the_way_of_a_query(body: Seq<u8>, a: u8, b: u8, n: usize, who: SocketAddr)
    ensures
        serve_after(ServeStep::ReadHeader, ServeEvent::Adopted(Some(who)), body)
            == ServeStep::ReadLength,
        serve_after(ServeStep::ReadLength, ServeEvent::Length(a, b), body) == if a * 256 + b == 0 {
            ServeStep::Close
        } else {
            ServeStep::ReadBody((a * 256 + b) as usize)
        },
        serve_after(ServeStep::ReadBody(n), ServeEvent::Body, body) == ServeStep::TryWire,
        serve_after(ServeStep::TryWire, ServeEvent::Wire(WireDisposition::Respond), body)
            == ServeStep::Send,
        serve_after(ServeStep::TryWire, ServeEvent::Wire(WireDisposition::Fallback), body)
            == ServeStep::Parse,
        serve_after(ServeStep::TryWire, ServeEvent::Wire(WireDisposition::Drop), body)
            == ServeStep::Close,
        serve_after(ServeStep::Send, ServeEvent::Sent(true), body) == ServeStep::ReadLength,
        serve_after(ServeStep::Send, ServeEvent::Sent(false), body) == ServeStep::Close,
        serve_after(ServeStep::Parse, ServeEvent::Parsed(false), body) == ServeStep::TryPreencoded,
        serve_after(ServeStep::Parse, ServeEvent::Malformed, body) == if body.len() >= 12 && body[2]
            < 128 {
            ServeStep::AskUnparsable
        } else {
            ServeStep::ReadLength
        },
        serve_after(ServeStep::AskUnparsable, ServeEvent::Answer, body) == ServeStep::Send,
        serve_after(ServeStep::AskUnparsable, ServeEvent::NoAnswer, body) == ServeStep::ReadLength,
        serve_after(ServeStep::TryPreencoded, ServeEvent::Preencoded(None), body)
            == ServeStep::Stream,
        serve_after(ServeStep::TryPreencoded, ServeEvent::Preencoded(Some(true)), body)
            == ServeStep::ReadLength,
        serve_after(ServeStep::TryPreencoded, ServeEvent::Preencoded(Some(false)), body)
            == ServeStep::Close,
        serve_after(ServeStep::Stream, ServeEvent::Streamed(true), body) == ServeStep::ReadLength,
        serve_after(ServeStep::Stream, ServeEvent::Streamed(false), body) == ServeStep::Close,
        forall|step: ServeStep|
            #[trigger] serve_after(step, ServeEvent::Stopped, body) == ServeStep::Close,
{
}

/// Every answer that can be encoded goes out, and one that cannot is replaced by a server
/// failure; an answer too long for its length, or one that cannot be sent, ends the
/// connection.
pub proof fn law_every_answer_is_emitted(n: usize)
    ensures
        n <= 0xffff ==> emit_after(EmitStep::Encode, EmitEvent::Encoded(Some(n))) == EmitStep::Send,
        n > 0xffff ==> emit_after(EmitStep::Encode, EmitEvent::Encoded(Some(n)))
            == EmitStep::Abort,
        emit_after(EmitStep::Encode, EmitEvent::Encoded(None)) == EmitStep::EncodeFailure,
        n <= 0xffff ==> emit_after(EmitStep::EncodeFailure, EmitEvent::Encoded(Some(n)))
            == EmitStep::Send,
        emit_after(EmitStep::EncodeFailure, EmitEvent::Encoded(None)) == EmitStep::Abort,
        emit_after(EmitStep::Send, EmitEvent::Sent(true)) == EmitStep::Sent,
        emit_after(EmitStep::Send, EmitEvent::Sent(false)) == EmitStep::Abort,
        PROXY_HEADER_DEADLINE == 5_000_000_000,
        DNS_MESSAGE_DEADLINE == 10_000_000_000,
        PROXY_HEADER_MAX == 256,
{
}

/// A write that wrote nothing failed, and any other one is gone on with right behind what
/// it wrote.
pub proof fn law_what_is_left_of_a_frame(written: int)
    requires
        0 <= written <= 0xffff + 2,
    ensures
        written == 0 ==> rest_after(written) is Failed,
        written == 1 ==> rest_after(written) == FrameRest::Prefix(1),
        written >= 2 ==> rest_after(written) == FrameRest::Body((written - 2) as usize),
{
}

} // verus!
