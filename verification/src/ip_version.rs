//! The IP version of a packet, as the BSD and macOS back ends read it to
//! choose the protocol family they prepend.
use vstd::prelude::*;

verus! {

/// Why the IP version of a packet cannot be told.
#[derive(Debug, Clone, Copy, PartialEq, Eq, Structural)]
pub enum IpVersionError {
    /// The packet is empty.
    Empty,
    /// The version nibble is neither 4 nor 6.
    UnknownVersion { version: u8 },
}

/// Whether `buf` holds an IPv6 packet (version nibble 6) rather than an
/// IPv4 one (version nibble 4); anything else is refused.
pub fn is_ipv6(buf: &[u8]) -> (r: Result<bool, IpVersionError>)
    ensures
        buf@.len() == 0 ==> r == Err::<bool, IpVersionError>(IpVersionError::Empty),
        buf@.len() > 0 ==> r == (if buf@[0] / 16 == 4 {
            Ok::<bool, IpVersionError>(false)
        } else if buf@[0] / 16 == 6 {
            Ok::<bool, IpVersionError>(true)
        } else {
            Err::<bool, IpVersionError>(IpVersionError::UnknownVersion { version: (buf@[0] / 16) as u8 })
        }),
{
    if buf.len() == 0 {
        return Err(IpVersionError::Empty);
    }
    let b0 = buf[0];
    assert(b0 >> 4u8 == b0 / 16) by (bit_vector);
    match b0 >> 4u8 {
        4 => Ok(false),
        6 => Ok(true),
        p => Err(IpVersionError::UnknownVersion { version: p }),
    }
}

} // verus!
