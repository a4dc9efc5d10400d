# udp2p

A verified core for a small peer-to-peer networking stack over UDP:
Kademlia peer discovery (XOR-distance routing table with k-buckets), gossip
dissemination with a message cache, a "guaranteed delivery" outbox with
acknowledgements and resends, and splitting messages into hex-encoded
packets and reassembling them.

- `src/` is the library, written in Verus and proved. Functions state in
  their contracts what they compute (the few that only read the clock, draw
  random bytes or are not implemented yet state what can be said);
  properties that span calls (reassembly gives back what was split, a peer
  the routing table accepts is known, the closest peers are the closest by
  XOR distance, a handled gossip message is ignored the next time, an
  acknowledged packet is not resent) are stated as proof functions.
- `app/` is the plain Rust shell around it: UDP sockets, channels, the
  clock, the JSON encoding of messages (serde), and the gossip
  configuration, whose share of peers is a floating point factor.
- `tests/` exercises the library.
