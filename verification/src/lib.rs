//! The decisions of a recursive DNS server, verified.

pub mod acl;
pub mod addr;
pub mod bucket;
pub mod cache;
pub mod chain;
pub mod connections;
pub mod cookie;
pub mod datagram;
pub mod encode;
pub mod honor;
pub mod infra;
pub mod iterate;
pub mod lane;
pub mod limits;
pub mod lru;
pub mod message;
pub mod name;
pub mod net;
pub mod nsaddr;
pub mod proving;
pub mod proxy;
pub mod query;
pub mod rate;
pub mod reactor;
pub mod recursor;
pub mod resolution;
pub mod resolve;
pub mod response;
pub mod search;
pub mod seqs;
pub mod siphash;
pub mod slots;
pub mod sockaddr;
pub mod stream;
pub mod subnet;
pub mod table;
pub mod transport;
pub mod validate;
