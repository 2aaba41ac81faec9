//! What can go wrong between bytes and messages, and between a sender and
//! the server it updates.

use vstd::prelude::*;

use crate::text;

verus! {

/// Why a message could not be written or read, or why an update did not go
/// through.
#[derive(Clone, Copy, Debug, PartialEq, Eq, Structural)]
pub enum DnsError {
    /// Fewer bytes than the fixed header has.
    ShortHeader,
    /// The bytes end before the counts in the header are used up.
    ShortSection,
    /// A section of more entries than its count can say.
    LongSection,
    /// The bytes end inside a name.
    ShortName,
    /// A label of more than 63 bytes, or a length octet that is neither a
    /// label's nor a pointer's.
    LongLabel,
    /// A name of more than 255 bytes as it is written.
    LongName,
    /// A compression pointer at its own offset or past it.
    PointerForward,
    /// A name whose pointers lead back into it for ever.
    PointerLoop,
    /// A TXT character string of more than 255 bytes.
    LongString,
    /// A TXT character string the rdata ends inside of.
    ShortString,
    /// A class IN record of type PTR or SRV whose rdata does not end where
    /// the name in it does.
    NameLength,
    /// A class IN record of type A whose rdata is not four bytes.
    AddressLength,
    /// A class IN record of type AAAA whose rdata is not sixteen bytes.
    LongAddressLength,
    /// Rdata of more bytes than its length field can say.
    LongRdata,
    /// A message of more bytes than a TCP length prefix can say.
    LongMessage,
    /// An update of more bytes than a datagram is given.
    LongDatagram,
    /// A payload no update of the loopback carries.
    OverCeiling { bytes: usize, ceiling: usize },
    /// An answer under another id than the update's.
    OtherAnswer,
    /// The server could not process the update now.
    ServerFailure,
    /// Any other response code that is not NOERROR.
    Refused { rcode: u16 },
}

impl DnsError {
    /// The words for this error.
    pub open spec fn words(self) -> Seq<char> {
        match self {
            DnsError::ShortHeader => "a message shorter than its header"@,
            DnsError::ShortSection => "a section shorter than its count"@,
            DnsError::LongSection => "a section too long"@,
            DnsError::ShortName => "a name that runs past the message"@,
            DnsError::LongLabel => "a label over 63 bytes"@,
            DnsError::LongName => "a name over 255 bytes"@,
            DnsError::PointerForward => "a compression pointer that points forward"@,
            DnsError::PointerLoop => "a compression pointer that loops"@,
            DnsError::LongString => "a TXT string over 255 bytes"@,
            DnsError::ShortString => "a TXT string shorter than its length"@,
            DnsError::NameLength => "a name that does not end with its rdata"@,
            DnsError::AddressLength => "an A record that is not four bytes"@,
            DnsError::LongAddressLength => "an AAAA record that is not sixteen bytes"@,
            DnsError::LongRdata => "rdata over what a record carries"@,
            DnsError::LongMessage => "a message over what DNS can frame"@,
            DnsError::LongDatagram => "an update over what a UDP datagram carries; use TCP"@,
            DnsError::OverCeiling { bytes, ceiling } => text::decimal(bytes as nat)
                + " bytes is over the "@ + text::decimal(ceiling as nat)
                + " one update carries in a message"@,
            DnsError::OtherAnswer => "an answer to another message"@,
            DnsError::ServerFailure => "the server answered SERVFAIL"@,
            DnsError::Refused { rcode } => "the server answered rcode "@ + text::decimal(rcode as nat),
        }
    }

    /// This error in words.
    pub fn message(&self) -> (words: String)
        ensures
            words@ == self.words(),
    {
        let mut words = String::new();
        match self {
            DnsError::ShortHeader => words.append("a message shorter than its header"),
            DnsError::ShortSection => words.append("a section shorter than its count"),
            DnsError::LongSection => words.append("a section too long"),
            DnsError::ShortName => words.append("a name that runs past the message"),
            DnsError::LongLabel => words.append("a label over 63 bytes"),
            DnsError::LongName => words.append("a name over 255 bytes"),
            DnsError::PointerForward => words.append("a compression pointer that points forward"),
            DnsError::PointerLoop => words.append("a compression pointer that loops"),
            DnsError::LongString => words.append("a TXT string over 255 bytes"),
            DnsError::ShortString => words.append("a TXT string shorter than its length"),
            DnsError::NameLength => words.append("a name that does not end with its rdata"),
            DnsError::AddressLength => words.append("an A record that is not four bytes"),
            DnsError::LongAddressLength => words.append("an AAAA record that is not sixteen bytes"),
            DnsError::LongRdata => words.append("rdata over what a record carries"),
            DnsError::LongMessage => words.append("a message over what DNS can frame"),
            DnsError::LongDatagram => words.append(
                "an update over what a UDP datagram carries; use TCP",
            ),
            DnsError::OverCeiling { bytes, ceiling } => {
                text::push_decimal(&mut words, *bytes as u64);
                words.append(" bytes is over the ");
                text::push_decimal(&mut words, *ceiling as u64);
                words.append(" one update carries in a message");
            },
            DnsError::OtherAnswer => words.append("an answer to another message"),
            DnsError::ServerFailure => words.append("the server answered SERVFAIL"),
            DnsError::Refused { rcode } => {
                words.append("the server answered rcode ");
                text::push_decimal(&mut words, *rcode as u64);
            },
        }
        assert(words@ =~= self.words());
        words
    }

    /// Whether sending the same update again may go better: only a server
    /// failure passes, everything else is permanent.
    pub fn retryable(&self) -> (again: bool)
        ensures
            again == (self is ServerFailure),
    {
        matches!(self, DnsError::ServerFailure)
    }
}

} // verus!
