//! What the server knows of a request before it is parsed, and how it is set up.

use vstd::prelude::*;

use crate::addr::{IpAddr, SocketAddr};
use crate::net::IpNet;

verus! {

/// How a request came in.
#[derive(Clone, Copy, PartialEq, Eq, Structural, Debug, Hash)]
pub enum Transport {
    Do53Udp,
    Do53Tcp,
    DoT,
    DoH,
    DoH3,
    DoQ,
    DnsCrypt,
}

/// The label of a transport in logs and metrics.
pub open spec fn transport_label(t: Transport) -> Seq<char> {
    match t {
        Transport::Do53Udp => "do53-udp"@,
        Transport::Do53Tcp => "do53-tcp"@,
        Transport::DoT => "dot"@,
        Transport::DoH => "doh"@,
        Transport::DoH3 => "doh3"@,
        Transport::DoQ => "doq"@,
        Transport::DnsCrypt => "dnscrypt"@,
    }
}

impl Transport {
    /// Plain DNS over UDP or TCP.
    pub fn is_plain_do53(self) -> (r: bool)
        ensures
            r == (self is Do53Udp || self is Do53Tcp),
    {
        match self {
            Transport::Do53Udp | Transport::Do53Tcp => true,
            _ => false,
        }
    }

    /// The path is encrypted: everything but plain DNS.
    pub fn is_encrypted(self) -> (r: bool)
        ensures
            r == !(self is Do53Udp || self is Do53Tcp),
    {
        !self.is_plain_do53()
    }

    /// Whether a zone transfer fits. Only a stream that carries several answers
    /// to one query can hold it.
    pub fn supports_xfr(self) -> (r: bool)
        ensures
            r == (self is Do53Tcp || self is DoT),
    {
        match self {
            Transport::Do53Tcp | Transport::DoT => true,
            _ => false,
        }
    }

    pub fn name(self) -> (r: &'static str)
        ensures
            r@ == transport_label(self),
    {
        match self {
            Transport::Do53Udp => "do53-udp",
            Transport::Do53Tcp => "do53-tcp",
            Transport::DoT => "dot",
            Transport::DoH => "doh",
            Transport::DoH3 => "doh3",
            Transport::DoQ => "doq",
            Transport::DnsCrypt => "dnscrypt",
        }
    }
}

/// A transport that carries zone transfers is a stream: plain TCP or TLS. None of
/// them is plain UDP, and of those that are plain it is TCP alone.
pub proof fn law_transfers_need_a_stream(t: Transport)
    requires
        t is Do53Tcp || t is DoT,
    ensures
        !(t is Do53Udp),
        t is Do53Tcp <==> !(t is DoT),
{
}

/// What the transport knows of one request.
#[derive(Debug)]
pub struct RequestCtx<'a> {
    /// The client; behind a trusted proxy, the one that the proxy named.
    pub src: SocketAddr,
    pub transport: Transport,
    /// The octets of the request as they came in.
    pub raw: Option<&'a [u8]>,
    pub client_id: Option<String>,
    pub authenticated: bool,
    /// The name of the identity that was confirmed.
    pub auth_identity: Option<String>,
}

impl<'a> RequestCtx<'a> {
    /// A request of which only the source and the transport are known.
    pub fn new(src: SocketAddr, transport: Transport) -> (r: Self)
        ensures
            r.src == src,
            r.transport == transport,
            r.raw is None,
            r.client_id is None,
            !r.authenticated,
            r.auth_identity is None,
    {
        RequestCtx {
            src,
            transport,
            raw: None,
            client_id: None,
            authenticated: false,
            auth_identity: None,
        }
    }
}

/// What admission control looks at.
#[derive(Debug)]
pub struct ClientInfo {
    pub source_ip: IpAddr,
    /// Known on encrypted transports only.
    pub client_id: Option<String>,
    pub transport: Transport,
    pub authenticated: bool,
}

/// How the path that does not parse dealt with a packet.
#[derive(Clone, Copy, PartialEq, Eq, Structural, Debug)]
pub enum WireDisposition {
    /// It could not: the packet is parsed and goes the usual way.
    Fallback,
    /// The output holds the whole answer.
    Respond,
    /// No answer is sent.
    Drop,
}

/// How the event loop dealt with a packet.
#[derive(Clone, Copy, PartialEq, Eq, Structural, Debug)]
pub enum ReactorDisposition {
    /// The output holds the whole answer.
    Respond,
    /// No answer is sent.
    Drop,
    /// A question went out; the answer comes later.
    Submitted,
    /// It could not: the packet goes the blocking way.
    Fallback,
}

/// How the server is set up.
#[derive(Debug)]
pub struct ServerConfig {
    pub udp: bool,
    pub tcp: bool,
    /// 0 stands for the number of processors.
    pub udp_workers: usize,
    /// 0 stands for the number of processors.
    pub tcp_acceptors: usize,
    /// Whether workers stay on one processor each.
    pub pin_cores: bool,
    /// How often a worker looks for the signal to stop, in nanoseconds.
    pub poll_interval: u64,
    pub udp_reactor: bool,
    pub proxy_protocol: bool,
    /// From where a proxy header is believed.
    pub trusted_proxies: Vec<IpNet>,
}

impl Default for ServerConfig {
    fn default() -> (r: Self)
        ensures
            r.udp && r.tcp && r.pin_cores,
            !r.udp_reactor && !r.proxy_protocol,
            r.udp_workers == 0 && r.tcp_acceptors == 0,
            r.poll_interval == 500_000_000,
            r.trusted_proxies@.len() == 0,
    {
        ServerConfig {
            udp: true,
            tcp: true,
            udp_workers: 0,
            tcp_acceptors: 0,
            pin_cores: true,
            poll_interval: 500_000_000,
            udp_reactor: false,
            proxy_protocol: false,
            trusted_proxies: Vec::new(),
        }
    }
}

} // verus!
