//! The market-data outbox: where updates are broadcast, and how they are
//! written on the wire.

use vstd::prelude::*;

pub mod envelope;

verus! {

/// The port of the multicast group on which updates are broadcast.
pub const MULTICAST_PORT: u16 = 8888;

/// The IPv4 multicast group on which updates are broadcast, octet by octet.
pub const MULTICAST_ADDR: [u8; 4] = [239, 255, 10, 10];

/// How many hops a datagram of the outbox may travel.
pub const MULTICAST_TTL: u32 = 5;

} // verus!
