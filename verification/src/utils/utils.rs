use vstd::prelude::*;

verus! {

/// Nanoseconds since the unix epoch.
pub type Timestamp = u128;

/// A trait for measuring XOR distance.
pub trait Distance {
    type Output;

    fn xor(&self, other: Self::Output) -> Self::Output;

    fn leading_zeros(&self) -> usize;

    /// The number of leading one bits; unless a type says otherwise, none
    /// are counted.
    fn leading_ones(&self) -> (r: usize)
        default_ensures
            r == 0,
    {
        0
    }
}

/// A trait for types that have a byte representation and can be rebuilt
/// from one. The encoding itself is a JSON text; the types that carry the
/// serde derives implement it outside this library.
pub trait ByteRep: Sized {
    fn as_bytes(&self) -> Option<Vec<u8>>;

    fn from_bytes(v: &[u8]) -> Option<Self>;
}

/// Reads the system clock through `std::time::UNIX_EPOCH.elapsed()` and
/// gives the nanoseconds since the epoch, or `None` when the clock stands
/// before the epoch. Nothing is stated of the value: it is the time.
#[verifier::external_body]
fn clock_nanos() -> (r: Option<u128>) {
    match std::time::UNIX_EPOCH.elapsed() {
        Ok(d) => Some(d.as_nanos()),
        Err(_) => None,
    }
}

/// The timestamp of a clock reading (nanoseconds since the epoch, or
/// `None` for a clock set before the epoch): the reading itself, and 0 for
/// a clock before the epoch.
pub fn timestamp_from(reading: Option<u128>) -> (r: Timestamp)
    ensures
        r == match reading {
            Some(t) => t,
            None => 0,
        },
{
    match reading {
        Some(t) => t,
        None => 0,
    }
}

/// Get the current unix timestamp in nanoseconds (see `timestamp_from`).
/// A clock set before the epoch reads as 0.
pub fn timestamp_now() -> (r: Timestamp) {
    timestamp_from(clock_nanos())
}

} // verus!
