use vstd::prelude::*;
use crate::discovery::DEFAULT_N_PEERS;
use crate::discovery::protocol::Req;
use crate::discovery::routing::{
    RoutingTable, TableView, peer_count, table_after_update, table_has_id, closest_peers,
    lemma_update_peer_known, placement, table_upsert, has_prefix, prefix_position,
    entries_upsert,
};
use crate::discovery::linked_map::{has_key, lemma_key_position};
use crate::node::address::Address;
use crate::node::peer_info::PeerInfo;
use crate::node::peer_key::{bit_string, xor_bytes};
use crate::protocol::protocol::{MessageKey, Value};

verus! {

/// The table after adding a peer (an update starting at the one bit prefix).
pub open spec fn table_after_add(tv: TableView, local_key: Seq<u8>, peer: PeerInfo) -> TableView {
    table_after_update(tv, local_key, peer, 0)
}

/// Handling one peer of a nodes response: the peer is added, and if the
/// table did not know it before, the local peer is added again (as part of
/// bootstrapping off the new peer) and the new peer's address is one to
/// bootstrap off.
pub open spec fn discover_step(tv: TableView, local: PeerInfo, peer: PeerInfo) -> (TableView, Seq<Address>) {
    let added = table_after_add(tv, local.key@, peer);
    if !table_has_id(tv, peer.id@) {
        (table_after_add(added, local.key@, local), seq![peer.address])
    } else {
        (added, Seq::empty())
    }
}

/// Handling the peers of a nodes response in order: the table after them
/// and the addresses to bootstrap off.
pub open spec fn discover_all(tv: TableView, local: PeerInfo, peers: Seq<PeerInfo>) -> (TableView, Seq<Address>)
    decreases peers.len(),
{
    if peers.len() == 0 {
        (tv, Seq::empty())
    } else {
        let before = discover_all(tv, local, peers.drop_last());
        let step = discover_step(before.0, local, peers.last());
        (step.0, before.1 + step.1)
    }
}

/// Adding a peer grows the table by at most one peer.
pub proof fn lemma_add_count(tv: TableView, local_key: Seq<u8>, peer: PeerInfo, t: nat)
    ensures
        peer_count(table_after_update(tv, local_key, peer, t)) <= peer_count(tv) + 1,
{
    let d = xor_bytes(local_key, peer.key@);
    match placement(tv, d, t) {
        Some(s) => {
            let p = bit_string(d, s + 1);
            if has_prefix(tv, p) {
                let i = prefix_position(tv, p);
                let e = tv[i].1;
                crate::discovery::routing::lemma_peer_count_update(tv, i, (p, entries_upsert(e, peer)));
                if has_key(e, peer.id@) {
                    lemma_key_position(e, peer.id@);
                }
            } else {
                crate::discovery::routing::lemma_peer_count_push(tv, (p, seq![(peer.id@, peer)]));
            }
        },
        None => {},
    }
}

proof fn lemma_discover_count(tv: TableView, local: PeerInfo, peers: Seq<PeerInfo>)
    ensures
        peer_count(discover_all(tv, local, peers).0) <= peer_count(tv) + 2 * peers.len(),
    decreases peers.len(),
{
    if peers.len() > 0 {
        lemma_discover_count(tv, local, peers.drop_last());
        let before = discover_all(tv, local, peers.drop_last()).0;
        let added = table_after_add(before, local.key@, peers.last());
        lemma_add_count(before, local.key@, peers.last(), 0);
        lemma_add_count(added, local.key@, local, 0);
    }
}

/// A decoded kademlia request, as the transport reads it: what it asks.
/// (Its sender is passed beside it.)
#[derive(Debug)]
pub enum RequestKind {
    /// Find the closest peers to a node; `None` where the node's bytes did
    /// not read as a peer.
    FindNode(Option<PeerInfo>),
    /// A new peer joined the network.
    NewPeer(PeerInfo),
    /// Find a value (not handled yet).
    FindValue,
    /// Store a value (not handled yet).
    Store,
    /// Check that the local node is alive.
    Ping,
    /// An RPC that only responses carry.
    Other,
}

/// A decoded kademlia response, as the transport reads it: what it answers.
#[derive(Debug)]
pub enum ResponseKind {
    /// The peers found by a find node request, those whose bytes read as a
    /// peer, in order.
    Nodes(Vec<PeerInfo>),
    /// A value (not handled yet).
    Value,
    /// A store confirmation (not handled yet).
    Saved,
    /// The answer to a ping, from the given peer.
    Pong(PeerInfo),
    /// An RPC that only requests carry.
    Other,
}

/// What the transport is to do after a kademlia step.
#[derive(Clone, Copy, Debug, PartialEq, Eq, Structural)]
pub enum KadAction {
    /// Answer the find node request to this address with the peers found.
    SendNodes(Address),
    /// Tell this address about the node that was looked up.
    SendNewPeer(Address),
    /// Answer the ping to this address.
    SendPong(Address),
    /// Send a find node request for the local peer to this address.
    SendFindNode(Address),
    /// Read the same bytes again as a response.
    AsResponse,
    /// Read the same bytes again as a request.
    AsRequest,
}

/// The actions after a find node request for `node`: the peers found go
/// to the node, then, if the node is new to the table, every peer found is
/// told about it.
pub open spec fn find_node_actions(node: PeerInfo, found: Seq<PeerInfo>, is_new: bool) -> Seq<KadAction> {
    seq![KadAction::SendNodes(node.address)] + if is_new {
        found.map_values(|p: PeerInfo| KadAction::SendNewPeer(p.address))
    } else {
        Seq::empty()
    }
}

/// Whether no message key occurs twice: the pending keys form a set.
pub open spec fn keys_distinct(v: Seq<MessageKey>) -> bool {
    forall|i: int, j: int| 0 <= i < j < v.len() ==> (#[trigger] v[i]).0@ != (#[trigger] v[j]).0@
}

/// The kademlia is the basic struct used for Peer Discovery in this crate.
/// It has a routing table and a set of keys of pending messages; an
/// interval between ping-pong events and the time of the last one, in
/// nanoseconds. Sending and receiving are left to the transport around it.
#[derive(Debug)]
pub struct Kademlia {
    pub routing_table: RoutingTable,
    pub pending: Vec<MessageKey>,
    pub interval: u128,
    pub ping_pong: u128,
}

impl Kademlia {
    /// Creates a new Kademlia instance
    ///
    /// # Arguments
    /// * routing_table - the routing table for this instance
    /// * pending - the message keys of pending outgoing messages
    /// * interval - the nanoseconds between ping pong events
    /// * ping_pong - when the last ping pong event happened
    pub fn new(routing_table: RoutingTable, pending: Vec<MessageKey>, interval: u128, ping_pong: u128) -> (r:
        Kademlia)
        requires
            keys_distinct(pending@),
        ensures
            r.routing_table == routing_table,
            r.pending == pending,
            r.interval == interval,
            r.ping_pong == ping_pong,
    {
        Kademlia { routing_table, pending, interval, ping_pong }
    }

    /// Whether more than the interval has passed at time `now` since the last
    /// ping pong event (a clock reading earlier counts as no time passed).
    pub fn ping_due(&self, now: u128) -> (r: bool)
        ensures
            r == (now > self.ping_pong && now - self.ping_pong > self.interval),
    {
        now > self.ping_pong && now - self.ping_pong > self.interval
    }

    /// Adds a peer to the routing table if they don't exist, updates it if
    /// they do.
    pub fn add_peer(&mut self, peer: &PeerInfo)
        requires
            old(self).routing_table.wf(),
            peer_count(old(self).routing_table.view_tree()) < usize::MAX,
        ensures
            final(self).routing_table.wf(),
            final(self).routing_table.local_info == old(self).routing_table.local_info,
            final(self).routing_table.view_tree() == table_after_add(
                old(self).routing_table.view_tree(),
                old(self).routing_table.local_info.key@,
                *peer,
            ),
            final(self).pending == old(self).pending,
            final(self).interval == old(self).interval,
            final(self).ping_pong == old(self).ping_pong,
    {
        let _ = self.routing_table.update_peer(peer, 0);
    }

    /// The table side of bootstrapping: the local peer is added to its own
    /// routing table. (Sending the find node request to the bootstrap node is
    /// left to the transport.)
    pub fn bootstrap(&mut self)
        requires
            old(self).routing_table.wf(),
            peer_count(old(self).routing_table.view_tree()) < usize::MAX,
        ensures
            final(self).routing_table.wf(),
            final(self).routing_table.local_info == old(self).routing_table.local_info,
            final(self).routing_table.view_tree() == table_after_add(
                old(self).routing_table.view_tree(),
                old(self).routing_table.local_info.key@,
                old(self).routing_table.local_info,
            ),
            final(self).pending == old(self).pending,
            final(self).interval == old(self).interval,
            final(self).ping_pong == old(self).ping_pong,
    {
        let local_info = self.routing_table.local_info.clone();
        self.add_peer(&local_info);
    }

    /// A find node lookup: the DEFAULT_N_PEERS closest peers to the node (as
    /// found before the node is added), then the node is added. Gives those
    /// peers and what the transport is to send: the peers go back to the
    /// node, and if the node was new to the table, each peer found is told
    /// about it.
    pub fn lookup_node(&mut self, node: &PeerInfo) -> (r: (Vec<PeerInfo>, Vec<KadAction>))
        requires
            old(self).routing_table.wf(),
            peer_count(old(self).routing_table.view_tree()) < usize::MAX,
        ensures
            r.0@ == closest_peers(old(self).routing_table.view_tree(), node.key@, DEFAULT_N_PEERS as nat),
            r.1@ == find_node_actions(
                *node,
                r.0@,
                !table_has_id(old(self).routing_table.view_tree(), node.id@),
            ),
            final(self).routing_table.wf(),
            final(self).routing_table.local_info == old(self).routing_table.local_info,
            final(self).routing_table.view_tree() == table_after_add(
                old(self).routing_table.view_tree(),
                old(self).routing_table.local_info.key@,
                *node,
            ),
            final(self).pending == old(self).pending,
            final(self).interval == old(self).interval,
            final(self).ping_pong == old(self).ping_pong,
    {
        let found = self.routing_table.get_closest_peers(node.clone(), DEFAULT_N_PEERS);
        let is_new = self.routing_table.is_new(node);
        self.add_peer(node);
        let mut actions: Vec<KadAction> = Vec::new();
        actions.push(KadAction::SendNodes(node.address));
        if is_new {
            let mut i: usize = 0;
            while i < found.len()
                invariant
                    i <= found@.len(),
                    actions@ == find_node_actions(*node, found@.take(i as int), true),
                decreases found@.len() - i,
            {
                actions.push(KadAction::SendNewPeer(found[i].address));
                i = i + 1;
                assert(actions@ =~= find_node_actions(*node, found@.take(i as int), true));
            }
            assert(found@.take(i as int) =~= found@);
        } else {
            assert(actions@ =~= find_node_actions(*node, found@, false));
        }
        (found, actions)
    }

    /// The table side of a nodes response: each peer in turn is added, and
    /// each one the table did not know before is bootstrapped off (the local
    /// peer is added again and the peer's address is returned, for the
    /// caller to send it a find node request).
    pub fn discover_nodes(&mut self, nodes: &Vec<PeerInfo>) -> (r: Vec<Address>)
        requires
            old(self).routing_table.wf(),
            peer_count(old(self).routing_table.view_tree()) + 2 * nodes@.len() < usize::MAX,
        ensures
            final(self).routing_table.wf(),
            final(self).routing_table.local_info == old(self).routing_table.local_info,
            (final(self).routing_table.view_tree(), r@) == discover_all(
                old(self).routing_table.view_tree(),
                old(self).routing_table.local_info,
                nodes@,
            ),
            final(self).pending == old(self).pending,
            final(self).interval == old(self).interval,
            final(self).ping_pong == old(self).ping_pong,
    {
        let ghost tv0 = self.routing_table.view_tree();
        let ghost local = self.routing_table.local_info;
        let mut addresses: Vec<Address> = Vec::new();
        let mut i: usize = 0;
        while i < nodes.len()
            invariant
                i <= nodes@.len(),
                self.routing_table.wf(),
                self.routing_table.local_info == local,
                self.pending == old(self).pending,
                self.interval == old(self).interval,
                self.ping_pong == old(self).ping_pong,
                peer_count(tv0) + 2 * nodes@.len() < usize::MAX,
                (self.routing_table.view_tree(), addresses@) == discover_all(tv0, local, nodes@.take(i as int)),
            decreases nodes@.len() - i,
        {
            proof {
                lemma_discover_count(tv0, local, nodes@.take(i as int));
                assert(nodes@.take(i + 1).drop_last() =~= nodes@.take(i as int));
            }
            let peer = &nodes[i];
            let new = self.routing_table.is_new(peer);
            self.add_peer(peer);
            if new {
                proof {
                    lemma_add_count(
                        discover_all(tv0, local, nodes@.take(i as int)).0,
                        local.key@,
                        *peer,
                        0,
                    );
                }
                self.bootstrap();
                addresses.push(peer.address);
            }
            proof {
                let ghost_step = discover_step(
                    discover_all(tv0, local, nodes@.take(i as int)).0,
                    local,
                    nodes@[i as int],
                );
                assert(addresses@ =~= discover_all(tv0, local, nodes@.take(i as int)).1 + ghost_step.1);
            }
            i = i + 1;
        }
        assert(nodes@.take(i as int) =~= nodes@);
        addresses
    }

    /// The decisions of the request handler: the sender is added to the
    /// routing table, then a find node request is looked up (closest peers
    /// found, then the node added), a new peer is added, a ping is answered,
    /// and an RPC that only responses carry is read again as a response.
    /// Returns the peers found (empty but for a find node request) and what
    /// the transport is to send.
    pub fn handle_request(&mut self, sender: &PeerInfo, kind: &RequestKind) -> (r: (Vec<PeerInfo>, Vec<KadAction>))
        requires
            old(self).routing_table.wf(),
            peer_count(old(self).routing_table.view_tree()) + 2 < usize::MAX,
        ensures
            final(self).routing_table.wf(),
            final(self).routing_table.local_info == old(self).routing_table.local_info,
            final(self).pending == old(self).pending,
            final(self).interval == old(self).interval,
            final(self).ping_pong == old(self).ping_pong,
            ({
                let local = old(self).routing_table.local_info;
                let tv1 = table_after_add(old(self).routing_table.view_tree(), local.key@, *sender);
                match *kind {
                    RequestKind::FindNode(Some(node)) => {
                        &&& r.0@ == closest_peers(tv1, node.key@, DEFAULT_N_PEERS as nat)
                        &&& final(self).routing_table.view_tree() == table_after_add(tv1, local.key@, node)
                        &&& r.1@ == find_node_actions(node, r.0@, !table_has_id(tv1, node.id@))
                    },
                    RequestKind::NewPeer(peer) => {
                        &&& final(self).routing_table.view_tree() == table_after_add(tv1, local.key@, peer)
                        &&& r.0@.len() == 0 && r.1@.len() == 0
                    },
                    RequestKind::Ping => {
                        &&& final(self).routing_table.view_tree() == tv1
                        &&& r.0@.len() == 0
                        &&& r.1@ == seq![KadAction::SendPong(sender.address)]
                    },
                    RequestKind::Other => {
                        &&& final(self).routing_table.view_tree() == tv1
                        &&& r.0@.len() == 0
                        &&& r.1@ == seq![KadAction::AsResponse]
                    },
                    _ => {
                        &&& final(self).routing_table.view_tree() == tv1
                        &&& r.0@.len() == 0 && r.1@.len() == 0
                    },
                }
            }),
    {
        let ghost tv0 = self.routing_table.view_tree();
        let ghost local = self.routing_table.local_info;
        proof {
            lemma_add_count(tv0, local.key@, *sender, 0);
        }
        self.add_peer(sender);
        let mut found: Vec<PeerInfo> = Vec::new();
        let mut actions: Vec<KadAction> = Vec::new();
        match kind {
            RequestKind::FindNode(Some(node)) => {
                let (f, a) = self.lookup_node(node);
                found = f;
                actions = a;
            },
            RequestKind::NewPeer(peer) => {
                self.add_peer(peer);
            },
            RequestKind::Ping => {
                actions.push(KadAction::SendPong(sender.address));
            },
            RequestKind::Other => {
                actions.push(KadAction::AsResponse);
            },
            _ => {},
        }
        (found, actions)
    }

    /// The decisions of the response handler: the peers of a nodes response
    /// are discovered (a find node request goes to each new one), the peer
    /// of a pong is added, and an RPC that only requests carry is read again
    /// as a request.
    pub fn handle_response(&mut self, kind: &ResponseKind) -> (r: Vec<KadAction>)
        requires
            old(self).routing_table.wf(),
            match *kind {
                ResponseKind::Nodes(nodes) => peer_count(old(self).routing_table.view_tree()) + 2 * nodes@.len() < usize::MAX,
                _ => peer_count(old(self).routing_table.view_tree()) + 1 < usize::MAX,
            },
        ensures
            final(self).routing_table.wf(),
            final(self).routing_table.local_info == old(self).routing_table.local_info,
            final(self).pending == old(self).pending,
            final(self).interval == old(self).interval,
            final(self).ping_pong == old(self).ping_pong,
            ({
                let local = old(self).routing_table.local_info;
                let tv = old(self).routing_table.view_tree();
                match *kind {
                    ResponseKind::Nodes(nodes) => {
                        let d = discover_all(tv, local, nodes@);
                        &&& final(self).routing_table.view_tree() == d.0
                        &&& r@ == d.1.map_values(|a: Address| KadAction::SendFindNode(a))
                    },
                    ResponseKind::Pong(peer) => {
                        &&& final(self).routing_table.view_tree() == table_after_add(tv, local.key@, peer)
                        &&& r@.len() == 0
                    },
                    ResponseKind::Other => {
                        &&& final(self).routing_table.view_tree() == tv
                        &&& r@ == seq![KadAction::AsRequest]
                    },
                    _ => {
                        &&& final(self).routing_table.view_tree() == tv
                        &&& r@.len() == 0
                    },
                }
            }),
    {
        let mut actions: Vec<KadAction> = Vec::new();
        match kind {
            ResponseKind::Nodes(nodes) => {
                let addresses = self.discover_nodes(nodes);
                let mut i: usize = 0;
                while i < addresses.len()
                    invariant
                        i <= addresses@.len(),
                        actions@ == addresses@.take(i as int).map_values(|a: Address| KadAction::SendFindNode(a)),
                    decreases addresses@.len() - i,
                {
                    actions.push(KadAction::SendFindNode(addresses[i]));
                    i = i + 1;
                    assert(actions@ =~= addresses@.take(i as int).map_values(|a: Address| KadAction::SendFindNode(a)));
                }
                assert(addresses@.take(i as int) =~= addresses@);
            },
            ResponseKind::Pong(peer) => {
                self.add_peer(peer);
            },
            ResponseKind::Other => {
                actions.push(KadAction::AsRequest);
            },
            _ => {},
        }
        actions
    }

    /// Ping a node (nothing is done yet).
    pub fn ping_node(&mut self, node: PeerInfo)
        ensures
            *final(self) == *old(self),
    {
    }

    /// Answer a ping (nothing is done yet).
    pub fn pong_response(&mut self, node: PeerInfo, req: Req)
        ensures
            *final(self) == *old(self),
    {
    }

    /// Look up a value (nothing is done yet).
    pub fn lookup_value(&mut self, value: Value)
        ensures
            *final(self) == *old(self),
    {
    }

    /// Store a value (nothing is done yet).
    pub fn store_value(&mut self, value: Value)
        ensures
            *final(self) == *old(self),
    {
    }

    /// Prepare a store message (nothing is done yet).
    pub fn prepare_store_message(&self, peer: &PeerInfo, value: Value) {
    }

    /// Prepare a saved response (nothing is done yet).
    pub fn prepare_saved_response(&self, peer: &PeerInfo, req: Req) {
    }

    /// Prepare a find value message (nothing is done yet).
    pub fn prepare_find_value_message(&self, value: Value) {
    }

    /// Prepare a value response (nothing is done yet).
    pub fn prepare_value_response(&self, peer: &PeerInfo, value: Value, req: Req) {
    }
}

proof fn lemma_upsert_keeps_key(e: Seq<(Seq<char>, PeerInfo)>, peer: PeerInfo, k: Seq<char>)
    requires
        has_key(e, k),
    ensures
        has_key(entries_upsert(e, peer), k),
{
    let j = choose|j: int| 0 <= j < e.len() && e[j].0 == k;
    let r = entries_upsert(e, peer);
    if has_key(e, peer.id@) {
        lemma_key_position(e, peer.id@);
        let p = crate::discovery::linked_map::key_position(e, peer.id@);
        if j == p {
            assert(r[r.len() - 1].0 == peer.id@);
        } else if j < p {
            assert(r[j] == e[j]);
        } else {
            assert(r[j - 1] == e[j]);
        }
    } else {
        assert(r[j] == e[j]);
    }
}

/// A peer known to the table stays known when another peer is added.
pub proof fn lemma_add_keeps_known(tv: TableView, local_key: Seq<u8>, peer: PeerInfo, id: Seq<char>)
    requires
        table_has_id(tv, id),
    ensures
        table_has_id(table_after_add(tv, local_key, peer), id),
{
    let i = choose|i: int| 0 <= i < tv.len() && has_key(#[trigger] tv[i].1, id);
    let after = table_after_add(tv, local_key, peer);
    let d = xor_bytes(local_key, peer.key@);
    match placement(tv, d, 0) {
        Some(s) => {
            let p = bit_string(d, s + 1);
            if has_prefix(tv, p) {
                let q = prefix_position(tv, p);
                if q == i {
                    lemma_upsert_keeps_key(tv[i].1, peer, id);
                    assert(has_key(after[i].1, id));
                } else {
                    assert(after[i] == tv[i]);
                }
            } else {
                assert(after[i] == tv[i]);
            }
        },
        None => {},
    }
}

/// Once a peer of a nodes response is handled it is known to the table, and
/// it stays known while the rest of the response is handled.
pub proof fn lemma_discovered_known(tv: TableView, local: PeerInfo, peers: Seq<PeerInfo>, i: int)
    requires
        0 <= i < peers.len(),
        placement(
            discover_all(tv, local, peers.take(i)).0,
            xor_bytes(local.key@, peers[i].key@),
            0,
        ) is Some,
    ensures
        table_has_id(discover_all(tv, local, peers).0, peers[i].id@),
    decreases peers.len(),
{
    let before = discover_all(tv, local, peers.drop_last());
    if i == peers.len() - 1 {
        assert(peers.take(i) =~= peers.drop_last());
        lemma_update_peer_known(before.0, local.key@, peers[i], 0);
        if !table_has_id(before.0, peers[i].id@) {
            lemma_add_keeps_known(table_after_add(before.0, local.key@, peers[i]), local.key@, local, peers[i].id@);
        }
    } else {
        assert(peers.drop_last().take(i) =~= peers.take(i));
        lemma_discovered_known(tv, local, peers.drop_last(), i);
        let added = table_after_add(before.0, local.key@, peers.last());
        lemma_add_keeps_known(before.0, local.key@, peers.last(), peers[i].id@);
        if !table_has_id(before.0, peers.last().id@) {
            lemma_add_keeps_known(added, local.key@, local, peers[i].id@);
        }
    }
}

} // verus!
