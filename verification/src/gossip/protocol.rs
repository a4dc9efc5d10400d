use vstd::prelude::*;
use crate::node::address::Address;
use crate::protocol::protocol::{InnerKey, MessageData};

verus! {

/// The gossip message
#[derive(Debug)]
pub struct GossipMessage {
    pub id: InnerKey,
    pub data: MessageData,
    pub sender: Address,
}

} // verus!
