pub mod closest;
pub mod kad;
pub mod linked_map;
pub mod protocol;
pub mod routing;

use vstd::prelude::*;

verus! {

/// Largest number of peers a bucket holds.
pub const MAX_BUCKET_LEN: usize = 30;

/// Largest number of buckets.
pub const MAX_BUCKETS: usize = 10;

/// Nanoseconds after which a bucket that was not updated is stale.
pub const REFRESH_INTEVAL: u128 = 900_000_000_000;

/// Largest kademlia message.
pub const KAD_MESSAGE_LEN: usize = 55000;

/// Nanoseconds after which a request times out.
pub const REQ_TIMEOUT: u64 = 60_000_000_000;

/// Largest number of requests in flight.
pub const MAX_ACTIVE_RPCS: usize = 3;

/// Number of closest peers a lookup answers with.
pub const DEFAULT_N_PEERS: usize = 8;

} // verus!
