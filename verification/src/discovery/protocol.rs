use vstd::prelude::*;
use crate::protocol::protocol::{InnerKey, KadMessage, Nodes, Peer, RPCBytes, RequestBytes, StoreKey, Value};

verus! {

/// RPC is an enum of the different types of remote procedure calls that a
/// kademlia instance may receive from or send to peers in the network
#[derive(Debug)]
pub enum RPC {
    Ping,
    NewPeer(Peer),
    Store(StoreKey, Value),
    FindNode(Peer),
    FindValue(Value),
    Nodes(Nodes),
    Value(Value),
    Saved(StoreKey),
    Pong(Peer),
}

/// A struct that contains an RPC request, the sender of the request and an
/// ID for the request.
#[derive(Debug)]
pub struct Req {
    pub id: InnerKey,
    pub sender: Peer,
    pub payload: RPCBytes,
}

/// A struct that contains an RPC response, the request it answers and the
/// node that received that request.
#[derive(Debug)]
pub struct Resp {
    pub request: RequestBytes,
    pub receiver: Peer,
    pub payload: RPCBytes,
}

/// Marker trait for requests.
pub trait Request {}

/// Marker trait for responses.
pub trait Response {}

impl Request for Req {}

impl Request for RPC {}

impl Request for KadMessage {}

impl Response for Resp {}

impl Response for RPC {}

impl Response for KadMessage {}

} // verus!
