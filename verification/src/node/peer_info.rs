use vstd::prelude::*;
use crate::node::address::Address;
use crate::node::peer_id::PeerId;
use crate::node::peer_key::{Key, xor_bytes, leading_zero_bits};
use crate::traits::routable::Routable;
use crate::utils::utils::Distance;
use crate::protocol::protocol::same_inner_key;
use vstd::std_specs::cmp::PartialEqSpecImpl;

verus! {

/// A peer paired with a key, such as its distance to some other key.
#[derive(Debug)]
pub struct PeerInfoDistancePair(pub PeerInfo, pub Key);

/// The core identifying struct for a node in the network
#[derive(Debug)]
pub struct PeerInfo {
    pub id: PeerId,
    pub key: Key,
    pub address: Address,
}

impl Clone for PeerInfo {
    fn clone(&self) -> (r: Self)
        ensures
            r == *self,
    {
        PeerInfo { id: self.id.clone(), key: self.key, address: self.address }
    }
}

/// Two peers are equal when their keys are.
impl PartialEq for PeerInfo {
    fn eq(&self, other: &PeerInfo) -> (r: bool) {
        same_inner_key(&self.key.0, &other.key.0)
    }
}

impl PartialEqSpecImpl for PeerInfo {
    open spec fn obeys_eq_spec() -> bool {
        true
    }

    open spec fn eq_spec(&self, other: &PeerInfo) -> bool {
        self.key@ == other.key@
    }
}

/// Two pairs are equal when their peers are.
impl PartialEq for PeerInfoDistancePair {
    fn eq(&self, other: &PeerInfoDistancePair) -> (r: bool) {
        self.0.eq(&other.0)
    }
}

impl PartialEqSpecImpl for PeerInfoDistancePair {
    open spec fn obeys_eq_spec() -> bool {
        true
    }

    open spec fn eq_spec(&self, other: &PeerInfoDistancePair) -> bool {
        self.0.key@ == other.0.key@
    }
}

impl PeerInfo {
    /// Generate a new PeerInfo instance given a PeerId, Key and Socket Address
    pub fn new(id: PeerId, key: Key, address: Address) -> (r: Self)
        ensures
            r.id == id,
            r.key == key,
            r.address == address,
    {
        PeerInfo { id, key, address }
    }

    /// gets the local nodes's key
    pub fn get_key(&self) -> (r: Key)
        ensures
            r == self.key,
    {
        self.key
    }
}

impl Distance for PeerInfo {
    type Output = Key;

    /// The XOR distance of the peer's key to `other`.
    fn xor(&self, other: Key) -> (r: Key)
        ensures
            r@ == xor_bytes(self.key@, other@),
    {
        self.key.xor(other)
    }

    /// The number of leading zero bits of the peer's key.
    fn leading_zeros(&self) -> (r: usize)
        ensures
            r == leading_zero_bits(self.key@),
    {
        self.key.leading_zeros()
    }
}

impl Routable for PeerInfo {
    type Id = PeerId;
    type Key = Key;

    fn get_id(&self) -> (r: PeerId)
        ensures
            r == self.id,
    {
        self.id.clone()
    }

    fn get_key(&self) -> (r: Key)
        ensures
            r == self.key,
    {
        self.key
    }

    fn get_address(&self) -> (r: Address)
        ensures
            r == self.address,
    {
        self.address
    }
}

} // verus!
