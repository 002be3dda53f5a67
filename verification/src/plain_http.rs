//! Which connections are served: plain ones, not those that open a TLS handshake.
use vstd::prelude::*;

verus! {

/// How long the first bytes of a connection are waited for, in nanoseconds.
pub const TLS_PREFIX_TIMEOUT: u128 = 60_000_000_000;

/// What a look at the first bytes of a connection found.
#[derive(Clone, Copy, Debug, PartialEq, Eq, Structural)]
pub enum Prefix {
    /// The first two bytes.
    Seen(u8, u8),
    /// The connection cannot be looked into without reading from it.
    Unseen,
    /// It failed, or nothing came in time.
    Failed,
}

/// Whether a connection is served. The first byte of a TLS handshake record is
/// 0x16, and the second is the major version 0x03.
pub open spec fn is_served(prefix: Prefix) -> bool {
    match prefix {
        Prefix::Seen(first, second) => !(first == 0x16 && second == 0x03),
        Prefix::Unseen => true,
        Prefix::Failed => false,
    }
}

/// Whether a connection is served.
pub fn serves_connection(prefix: Prefix) -> (r: bool)
    ensures
        r == is_served(prefix),
{
    match prefix {
        Prefix::Seen(first, second) => !(first == 0x16 && second == 0x03),
        Prefix::Unseen => true,
        Prefix::Failed => false,
    }
}

/// A connection is turned away exactly when it opens a TLS handshake or failed before
/// its first bytes came; every other is served, whatever its first bytes are.
pub proof fn law_only_tls_and_failures_are_turned_away(prefix: Prefix, served: bool)
    requires
        call_ensures(serves_connection, (prefix,), served),
    ensures
        prefix == Prefix::Failed ==> !served,
        prefix == Prefix::Unseen ==> served,
        prefix == Prefix::Seen(0x16, 0x03) ==> !served,
        prefix is Seen && prefix != Prefix::Seen(0x16, 0x03) ==> served,
        TLS_PREFIX_TIMEOUT == 60_000_000_000,
{
}

} // verus!
