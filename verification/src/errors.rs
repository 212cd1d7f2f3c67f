use vstd::prelude::*;

verus! {

/// Errors that can occur while decoding or encoding DNS packets.
#[derive(Debug, Clone, PartialEq, Eq)]
pub enum DnsCodecError {
    /// The buffer is too short to hold a DNS message.
    IncompletePacket { needed: usize, available: usize },
    /// The bytes do not form a well-formed DNS message.
    ParseFailure(String),
    /// A domain name holds a label longer than 63 bytes.
    InvalidDomainName(String),
}

} // verus!
