//! Why a configuration is refused.

use vstd::prelude::*;

verus! {

/// One of the two lists of a configuration.
#[derive(Debug, Clone, Copy, PartialEq, Eq, Structural)]
pub enum AddressList {
    /// The addresses to refuse.
    Deny,
    /// The addresses to let pass.
    Allow,
}

/// Why a payload gives no decision table.
#[derive(Debug, PartialEq, Eq)]
pub enum ConfigError {
    /// The payload is no JSON document, or the document writes no
    /// configuration.
    MalformedPayload,
    /// Both lists are empty, or neither is.
    ExclusivityViolation,
    /// The literal, which stands in the list named, is neither an IPv4 nor
    /// an IPv6 address.
    InvalidAddress(String, AddressList),
}

} // verus!
