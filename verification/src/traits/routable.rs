use vstd::prelude::*;
use crate::node::address::Address;

verus! {

/// Applied to a peer that can be placed in a routing table: it has an id,
/// a key and an address.
pub trait Routable {
    type Id;
    type Key;

    fn get_id(&self) -> Self::Id;

    fn get_key(&self) -> Self::Key;

    fn get_address(&self) -> Address;
}

} // verus!
