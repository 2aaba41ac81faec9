//! Streams that travel as DNS dynamic updates. One UPDATE is one Stream: the
//! TXT record it adds carries the bytes, and the zone and owner name it
//! writes them under are the address.
//!
//! DNS is the one protocol every network already lets through, which is why
//! integrations end up riding it: service records that announce an endpoint,
//! TXT records that carry a token or a small document, a zone a partner
//! updates instead of a drop box. A sender makes an RFC 2136 UPDATE adding a
//! TXT record to a zone; a receiver is the server that zone's updates reach,
//! takes each update's TXT payload as a Stream, and answers NOERROR. A QUERY
//! that reaches a receiver is answered NOTIMP and skipped.
//!
//! Over UDP with EDNS a message is at most [`UDP_EDNS`] bytes; over TCP, RFC
//! 1035 section 4.2.2, [`MAX_MESSAGE`]. A larger Stream is refused, and says
//! so.
//!
//! The origin URI carries what the header knew:
//! `dns://peer/probe.xmip.example.?zone=xmip.example.&id=4660`.
//!
//! Everything here is a function of bytes and values, each with its contract
//! proved; the sockets are the caller's. [`laws`] holds what is proved of
//! the parts together.

pub mod error;
pub mod frame;
pub mod label;
pub mod laws;
pub mod loopback;
pub mod message;
pub mod record;
pub mod text;
pub mod transport;
pub mod wire;

pub use error::DnsError;
pub use message::{Message, MAX_MESSAGE, UDP_EDNS};
pub use transport::{Answer, Arrived, Carrier, DnsTransport, Outgoing};
