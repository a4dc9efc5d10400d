use vstd::prelude::*;
use crate::discovery::kad::Kademlia;
use crate::discovery::routing::closest_peers;
use crate::node::address::Address;
use crate::node::peer_info::PeerInfo;
use crate::protocol::protocol::{Header, InnerKey, Message, MessageKey, same_inner_key};
use crate::utils::random::random_index;

verus! {

/// The largest `std::time::Duration`, in nanoseconds.
pub const MAX_DURATION_NANOS: u128 = 18446744073709551615999999999;

/// How many peers nearest to the local peer gossip is spread among.
pub const GOSSIP_PEERS: usize = 30;

/// With more peers than this, gossip goes to a random sample of them.
pub const SAMPLE_ABOVE: usize = 7;

/// A cached message: its key, the message and when it was cached (ns).
pub type CacheEntry = (MessageKey, Message, u128);

/// What the cache holds of an entry: key bytes, header, message bytes, time.
pub open spec fn entry_view(e: CacheEntry) -> (Seq<u8>, Header, Seq<u8>, u128) {
    (e.0.0@, e.1.head, e.1.msg@, e.2)
}

/// The view of a cache.
pub open spec fn cache_view(c: Seq<CacheEntry>) -> Seq<(Seq<u8>, Header, Seq<u8>, u128)> {
    Seq::new(c.len(), |i: int| entry_view(c[i]))
}

/// The view of a list of messages: header and bytes of each.
pub open spec fn messages_view(m: Seq<Message>) -> Seq<(Header, Seq<u8>)> {
    Seq::new(m.len(), |i: int| (m[i].head, m[i].msg@))
}

/// Whether the cache holds a message under the key.
pub open spec fn cache_has(c: Seq<(Seq<u8>, Header, Seq<u8>, u128)>, key: Seq<u8>) -> bool {
    exists|i: int| 0 <= i < c.len() && c[i].0 == key
}

/// The age of a cache entry at time `now` (zero for a clock reading earlier).
pub open spec fn age(now: u128, t: u128) -> u128 {
    if now > t {
        (now - t) as u128
    } else {
        0
    }
}

/// The entries that survive a gossip round at `now`: those not older than
/// `interval * history_len`.
pub open spec fn kept_entries(
    c: Seq<(Seq<u8>, Header, Seq<u8>, u128)>,
    now: u128,
    window: int,
) -> Seq<(Seq<u8>, Header, Seq<u8>, u128)>
    decreases c.len(),
{
    if c.len() == 0 {
        Seq::empty()
    } else if age(now, c.last().3) > window {
        kept_entries(c.drop_last(), now, window)
    } else {
        kept_entries(c.drop_last(), now, window).push(c.last())
    }
}

/// The messages republished in a gossip round at `now`: those younger than
/// `interval * history_gossip`, in cache order.
pub open spec fn republished(
    c: Seq<(Seq<u8>, Header, Seq<u8>, u128)>,
    now: u128,
    window: int,
) -> Seq<(Header, Seq<u8>)>
    decreases c.len(),
{
    if c.len() == 0 {
        Seq::empty()
    } else if age(now, c.last().3) < window {
        republished(c.drop_last(), now, window).push((c.last().1, c.last().2))
    } else {
        republished(c.drop_last(), now, window)
    }
}

/// The addresses of the peers, each once in order of first occurrence,
/// leaving out `exclude`.
pub open spec fn distinct_addresses(peers: Seq<PeerInfo>, exclude: Address) -> Seq<Address>
    decreases peers.len(),
{
    if peers.len() == 0 {
        Seq::empty()
    } else {
        let r = distinct_addresses(peers.drop_last(), exclude);
        let a = peers.last().address;
        if a == exclude || r.contains(a) {
            r
        } else {
            r.push(a)
        }
    }
}

/// A message once handled is in the cache: handling it again is ignored.
pub proof fn lemma_handled_is_cached(
    c: Seq<(Seq<u8>, Header, Seq<u8>, u128)>,
    id: Seq<u8>,
    head: Header,
    msg: Seq<u8>,
    now: u128,
)
    ensures
        cache_has(c.push((id, head, msg, now)), id),
{
    assert(c.push((id, head, msg, now))[c.len() as int].0 == id);
}

/// A gossip round keeps every cached message that is not older than the
/// keeping window, so it goes on being ignored when it comes again.
pub proof fn lemma_young_entries_kept(
    c: Seq<(Seq<u8>, Header, Seq<u8>, u128)>,
    now: u128,
    window: int,
    i: int,
)
    requires
        0 <= i < c.len(),
        age(now, c[i].3) <= window,
    ensures
        cache_has(kept_entries(c, now, window), c[i].0),
    decreases c.len(),
{
    let k = kept_entries(c, now, window);
    if i == c.len() - 1 {
        assert(k == kept_entries(c.drop_last(), now, window).push(c.last()));
        assert(k[k.len() - 1].0 == c[i].0);
    } else {
        assert(c.drop_last()[i] == c[i]);
        lemma_young_entries_kept(c.drop_last(), now, window, i);
        let k0 = kept_entries(c.drop_last(), now, window);
        let j = choose|j: int| 0 <= j < k0.len() && k0[j].0 == c[i].0;
        if age(now, c.last().3) <= window {
            assert(k == k0.push(c.last()));
            assert(k[j] == k0[j]);
        }
    }
}

/// What to do with an incoming gossip message.
#[derive(Clone, Copy, Debug, PartialEq, Eq, Structural)]
pub enum Handling {
    /// Already seen: nothing is done.
    Ignore,
    /// New, from the local node: forward it to peers.
    Forward,
    /// New, from another node: hand it to the application and forward it.
    DeliverAndForward,
}

/// The sample of peers' addresses picked by the drawn indices `draws`: in
/// draw order, the address of each drawn peer that is neither `src` nor
/// `local` and not picked before.
pub open spec fn sampled(peers: Seq<PeerInfo>, src: Address, local: Address, draws: Seq<usize>) -> Seq<Address>
    decreases draws.len(),
{
    if draws.len() == 0 {
        Seq::empty()
    } else {
        let r = sampled(peers, src, local, draws.drop_last());
        let a = peers[draws.last() as int].address;
        if a == src || a == local || r.contains(a) {
            r
        } else {
            r.push(a)
        }
    }
}

/// A sample holds no more addresses than draws, none twice, neither `src`
/// nor `local`, each one a drawn peer's address.
pub proof fn lemma_sampled(peers: Seq<PeerInfo>, src: Address, local: Address, draws: Seq<usize>)
    requires
        forall|i: int| 0 <= i < draws.len() ==> #[trigger] draws[i] < peers.len(),
    ensures
        sampled(peers, src, local, draws).len() <= draws.len(),
        forall|a: int, b: int|
            0 <= a < b < sampled(peers, src, local, draws).len() ==> sampled(peers, src, local, draws)[a]
                != sampled(peers, src, local, draws)[b],
        forall|a: int|
            0 <= a < sampled(peers, src, local, draws).len() ==> {
                &&& sampled(peers, src, local, draws)[a] != src
                &&& sampled(peers, src, local, draws)[a] != local
                &&& exists|p: int|
                    0 <= p < peers.len() && peers[p].address == #[trigger] sampled(peers, src, local, draws)[a]
            },
    decreases draws.len(),
{
    if draws.len() > 0 {
        let d = draws.drop_last();
        assert forall|i: int| 0 <= i < d.len() implies #[trigger] d[i] < peers.len() by {
            assert(d[i] == draws[i]);
        }
        lemma_sampled(peers, src, local, d);
        let r = sampled(peers, src, local, d);
        let x = draws.last() as int;
        assert(draws[draws.len() - 1] < peers.len());
        let s = sampled(peers, src, local, draws);
        assert forall|a: int| 0 <= a < s.len() implies {
            &&& s[a] != src
            &&& s[a] != local
            &&& exists|p: int| 0 <= p < peers.len() && peers[p].address == #[trigger] s[a]
        } by {
            if a < r.len() {
                assert(s[a] == r[a]);
            } else {
                assert(peers[x].address == s[a]);
            }
        }
    }
}

/// With few peers, the targets are exactly the peers' addresses other than
/// the local one: every such address is a target, and every target is one.
pub proof fn lemma_distinct_addresses_complete(peers: Seq<PeerInfo>, exclude: Address, x: Address)
    ensures
        distinct_addresses(peers, exclude).contains(x) <==> x != exclude && exists|i: int|
            0 <= i < peers.len() && #[trigger] peers[i].address == x,
    decreases peers.len(),
{
    if peers.len() > 0 {
        let d = peers.drop_last();
        lemma_distinct_addresses_complete(d, exclude, x);
        let r = distinct_addresses(d, exclude);
        let a = peers.last().address;
        let s = distinct_addresses(peers, exclude);
        if x != exclude && exists|i: int| 0 <= i < peers.len() && #[trigger] peers[i].address == x {
            let i = choose|i: int| 0 <= i < peers.len() && #[trigger] peers[i].address == x;
            if i < peers.len() - 1 {
                assert(d[i].address == x);
                let m = choose|m: int| 0 <= m < r.len() && r[m] == x;
                if !(a == exclude || r.contains(a)) {
                    assert(s == r.push(a));
                    assert(s[m] == r[m]);
                }
            } else {
                if !r.contains(a) {
                    assert(s == r.push(a));
                    assert(s[r.len() as int] == x);
                }
            }
        }
        if s.contains(x) {
            let k = choose|k: int| 0 <= k < s.len() && s[k] == x;
            if !(a == exclude || r.contains(a)) && k == r.len() {
                assert(peers[peers.len() - 1].address == x);
            } else {
                assert(s[k] == r[k]);
                assert(r.contains(x));
                let i = choose|i: int| 0 <= i < d.len() && #[trigger] d[i].address == x;
                assert(peers[i].address == x);
            }
        }
    }
}

/// The core gossip struct: the gossip engine's state and decisions. It
/// caches incoming messages, decides which to hand on and republish, and
/// samples the peers to gossip to. Sending is left to the transport around
/// it. Times are in nanoseconds.
#[derive(Debug)]
pub struct GossipService {
    pub address: Address,
    pub public_ip: Address,
    pub kad: Kademlia,
    pub cache: Vec<CacheEntry>,
    /// Time between heartbeats.
    pub interval: u128,
    /// Number of heartbeats to keep messages in the cache.
    pub history_len: u32,
    /// Number of heartbeats to gossip about messages.
    pub history_gossip: u32,
    /// Number of heartbeats between ping messages.
    pub check: u32,
    pub heartbeat: u128,
    pub ping_pong: u128,
}

impl GossipService {
    /// The service's invariant: no key is cached twice, and the windows that
    /// the intervals span stay within a `Duration`.
    pub open spec fn wf(&self) -> bool {
        &&& self.interval * self.history_len <= MAX_DURATION_NANOS
        &&& self.interval * self.history_gossip <= MAX_DURATION_NANOS
        &&& self.interval * self.check <= MAX_DURATION_NANOS
        &&& forall|i: int, j: int|
            0 <= i < j < self.cache@.len() ==> (#[trigger] self.cache@[i]).0.0@ != (
            #[trigger] self.cache@[j]).0.0@
    }

    /// Creates a new instance of GossipService with an empty cache.
    ///
    /// # Arguments
    ///
    /// * address - the local node's socket address
    /// * public_ip - the local node's public address
    /// * kad - a kademlia dht used as a peer discovery routing table
    /// * interval, history_len, history_gossip, check - the length of a heartbeat, the heartbeats to keep messages, to gossip about them, and between pings
    /// * heartbeat - the time of the last heartbeat
    /// * ping_pong - the time of the last ping message sent
    pub fn new(
        address: Address,
        public_ip: Address,
        kad: Kademlia,
        interval: u128,
        history_len: u32,
        history_gossip: u32,
        check: u32,
        heartbeat: u128,
        ping_pong: u128,
    ) -> (r: GossipService)
        requires
            interval * history_len <= MAX_DURATION_NANOS,
            interval * history_gossip <= MAX_DURATION_NANOS,
            interval * check <= MAX_DURATION_NANOS,
        ensures
            r.wf(),
            r.address == address,
            r.public_ip == public_ip,
            r.kad == kad,
            r.cache@.len() == 0,
            r.interval == interval,
            r.history_len == history_len,
            r.history_gossip == history_gossip,
            r.check == check,
            r.heartbeat == heartbeat,
            r.ping_pong == ping_pong,
    {
        GossipService {
            address,
            public_ip,
            kad,
            cache: Vec::new(),
            interval,
            history_len,
            history_gossip,
            check,
            heartbeat,
            ping_pong,
        }
    }

    /// Checks whether more than a heartbeat interval has passed at `now`
    /// since the last heartbeat; if so, `now` becomes the last heartbeat.
    pub fn heartbeat(&mut self, now: u128) -> (r: bool)
        ensures
            r == (age(now, old(self).heartbeat) > old(self).interval),
            final(self).heartbeat == if r {
                now
            } else {
                old(self).heartbeat
            },
            final(self).cache == old(self).cache,
            final(self).kad == old(self).kad,
            final(self).address == old(self).address,
            final(self).interval == old(self).interval,
            final(self).history_len == old(self).history_len,
            final(self).history_gossip == old(self).history_gossip,
            final(self).check == old(self).check,
            final(self).ping_pong == old(self).ping_pong,
            final(self).public_ip == old(self).public_ip,
    {
        let elapsed: u128 = if now > self.heartbeat {
            now - self.heartbeat
        } else {
            0
        };
        if elapsed > self.interval {
            self.heartbeat = now;
            return true;
        }
        false
    }

    /// A gossip round at `now`: on a heartbeat, the cached messages younger
    /// than `history_gossip` heartbeats are returned for republishing and
    /// those older than `history_len` heartbeats leave the cache. Without a
    /// heartbeat nothing changes and nothing is returned.
    pub fn gossip(&mut self, now: u128) -> (r: Vec<Message>)
        requires
            old(self).wf(),
        ensures
            final(self).wf(),
            final(self).heartbeat == if age(now, old(self).heartbeat) > old(self).interval {
                now
            } else {
                old(self).heartbeat
            },
            age(now, old(self).heartbeat) > old(self).interval ==> {
                &&& cache_view(final(self).cache@) == kept_entries(
                    cache_view(old(self).cache@),
                    now,
                    old(self).interval * old(self).history_len,
                )
                &&& messages_view(r@) == republished(
                    cache_view(old(self).cache@),
                    now,
                    old(self).interval * old(self).history_gossip,
                )
            },
            !(age(now, old(self).heartbeat) > old(self).interval) ==> final(self).cache == old(
                self,
            ).cache && r@.len() == 0,
            final(self).kad == old(self).kad,
            final(self).address == old(self).address,
            final(self).interval == old(self).interval,
            final(self).history_len == old(self).history_len,
            final(self).history_gossip == old(self).history_gossip,
            final(self).check == old(self).check,
            final(self).public_ip == old(self).public_ip,
            final(self).ping_pong == old(self).ping_pong,
    {
        let mut out: Vec<Message> = Vec::new();
        if !self.heartbeat(now) {
            return out;
        }
        let gossip_window: u128 = self.interval * self.history_gossip as u128;
        let keep_window: u128 = self.interval * self.history_len as u128;
        let ghost c0 = cache_view(self.cache@);
        let ghost old_cache = self.cache@;
        let mut kept: Vec<CacheEntry> = Vec::new();
        let ghost mut idx: Seq<int> = Seq::empty();
        let mut i: usize = 0;
        while i < self.cache.len()
            invariant
                i <= self.cache@.len(),
                self.cache@ == old_cache,
                c0 == cache_view(old_cache),
                cache_view(kept@) == kept_entries(c0.take(i as int), now, keep_window as int),
                messages_view(out@) == republished(c0.take(i as int), now, gossip_window as int),
                idx.len() == kept@.len(),
                forall|a: int| 0 <= a < idx.len() ==> 0 <= #[trigger] idx[a] < i && kept@[a].0.0@ == old_cache[idx[a]].0.0@,
                forall|a: int, b: int| 0 <= a < b < idx.len() ==> #[trigger] idx[a] < #[trigger] idx[b],
                forall|a: int, b: int| 0 <= a < b < old_cache.len() ==> (#[trigger] old_cache[a]).0.0@ != (#[trigger] old_cache[b]).0.0@,
            decreases self.cache@.len() - i,
        {
            proof {
                assert(c0.take(i + 1).drop_last() =~= c0.take(i as int));
                assert(c0.take(i + 1).last() == entry_view(old_cache[i as int]));
            }
            let t: u128 = self.cache[i].2;
            let elapsed: u128 = if now > t {
                now - t
            } else {
                0
            };
            if elapsed < gossip_window {
                let ghost before = out@;
                out.push(self.cache[i].1.clone());
                assert(messages_view(out@) =~= messages_view(before).push(
                    (old_cache[i as int].1.head, old_cache[i as int].1.msg@),
                ));
            }
            if !(elapsed > keep_window) {
                let ghost before = kept@;
                let e = (self.cache[i].0, self.cache[i].1.clone(), t);
                kept.push(e);
                assert(cache_view(kept@) =~= cache_view(before).push(entry_view(old_cache[i as int])));
                proof {
                    idx = idx.push(i as int);
                }
            }
            i = i + 1;
        }
        proof {
            assert(c0.take(i as int) =~= c0);
            assert forall|a: int, b: int| 0 <= a < b < kept@.len() implies (#[trigger] kept@[a]).0.0@ != (
            #[trigger] kept@[b]).0.0@ by {
                assert(idx[a] < idx[b]);
            }
        }
        self.cache = kept;
        out
    }

    /// The peers gossip is spread among: the GOSSIP_PEERS closest to the
    /// local peer in the routing table.
    pub fn gossip_peers(&self) -> (r: Vec<PeerInfo>)
        requires
            self.kad.routing_table.wf(),
        ensures
            r@ == closest_peers(
                self.kad.routing_table.view_tree(),
                self.kad.routing_table.local_info.key@,
                GOSSIP_PEERS as nat,
            ),
    {
        let local = self.kad.routing_table.local_info.clone();
        self.kad.routing_table.get_closest_peers(local, GOSSIP_PEERS)
    }

    /// The addresses a message from `src` is forwarded to. With more than
    /// SAMPLE_ABOVE peers, the sample (see `sample_targets`) of `samples`
    /// random draws among the peers; otherwise every peer's address but the
    /// local one. No address is listed twice.
    pub fn publish_targets(&self, peers: &Vec<PeerInfo>, src: Address, samples: usize) -> (r: Vec<Address>)
        ensures
            forall|a: int, b: int| 0 <= a < b < r@.len() ==> r@[a] != r@[b],
            peers@.len() > SAMPLE_ABOVE ==> {
                &&& exists|draws: Seq<usize>|
                    {
                        &&& draws.len() == samples
                        &&& forall|i: int| 0 <= i < draws.len() ==> #[trigger] draws[i] < peers@.len()
                        &&& r@ == #[trigger] sampled(peers@, src, self.address, draws)
                    }
                &&& r@.len() <= samples
                &&& forall|a: int|
                    0 <= a < r@.len() ==> {
                        &&& r@[a] != src
                        &&& r@[a] != self.address
                        &&& exists|p: int| 0 <= p < peers@.len() && peers@[p].address == #[trigger] r@[a]
                    }
            },
            peers@.len() <= SAMPLE_ABOVE ==> r@ == distinct_addresses(peers@, self.address),
    {
        if peers.len() > SAMPLE_ABOVE {
            let mut draws: Vec<usize> = Vec::new();
            let mut k: usize = 0;
            while k < samples
                invariant
                    k <= samples,
                    draws@.len() == k,
                    forall|i: int| 0 <= i < draws@.len() ==> #[trigger] draws@[i] < peers@.len(),
                    peers@.len() > SAMPLE_ABOVE,
                decreases samples - k,
            {
                draws.push(random_index(peers.len()));
                k = k + 1;
            }
            let r = self.sample_targets(peers, src, &draws);
            proof {
                lemma_sampled(peers@, src, self.address, draws@);
            }
            r
        } else {
            let mut sample: Vec<Address> = Vec::new();
            let mut j: usize = 0;
            while j < peers.len()
                invariant
                    j <= peers@.len(),
                    sample@ == distinct_addresses(peers@.take(j as int), self.address),
                decreases peers@.len() - j,
            {
                proof {
                    assert(peers@.take(j + 1).drop_last() =~= peers@.take(j as int));
                }
                let address = peers[j].address;
                if address != self.address && !contains_address(&sample, address) {
                    sample.push(address);
                }
                j = j + 1;
            }
            assert(peers@.take(j as int) =~= peers@);
            proof {
                lemma_distinct_addresses_distinct(peers@, self.address);
            }
            sample
        }
    }

    /// The sample a message from `src` is forwarded to, given the drawn
    /// indices into the peers (see `sampled`): in draw order, the address of
    /// each drawn peer that is neither `src` nor the local address and not
    /// already in the sample.
    pub fn sample_targets(&self, peers: &Vec<PeerInfo>, src: Address, draws: &Vec<usize>) -> (r: Vec<Address>)
        requires
            forall|i: int| 0 <= i < draws@.len() ==> #[trigger] draws@[i] < peers@.len(),
        ensures
            r@ == sampled(peers@, src, self.address, draws@),
            r@.len() <= draws@.len(),
    {
        let mut sample: Vec<Address> = Vec::new();
        let mut k: usize = 0;
        while k < draws.len()
            invariant
                k <= draws@.len(),
                forall|i: int| 0 <= i < draws@.len() ==> #[trigger] draws@[i] < peers@.len(),
                sample@ == sampled(peers@, src, self.address, draws@.take(k as int)),
            decreases draws@.len() - k,
        {
            proof {
                assert(draws@.take(k + 1).drop_last() =~= draws@.take(k as int));
                assert(draws@.take(k + 1).last() == draws@[k as int]);
            }
            let address = peers[draws[k]].address;
            if address != src && address != self.address && !contains_address(&sample, address) {
                sample.push(address);
            }
            k = k + 1;
        }
        assert(draws@.take(k as int) =~= draws@);
        proof {
            lemma_sampled(peers@, src, self.address, draws@);
        }
        sample
    }

    /// Handles an incoming message that reads as a gossip message with the
    /// given id: a message already cached is ignored; otherwise it is cached
    /// at `now` and forwarded to peers, and when it comes from another node
    /// it is also handed to the application.
    pub fn handle_message(&mut self, src: Address, msg: &Message, id: InnerKey, now: u128) -> (r: Handling)
        requires
            old(self).wf(),
        ensures
            final(self).wf(),
            cache_has(cache_view(old(self).cache@), id@) ==> r == Handling::Ignore && final(self).cache
                == old(self).cache,
            !cache_has(cache_view(old(self).cache@), id@) ==> {
                &&& r == if src != old(self).address {
                    Handling::DeliverAndForward
                } else {
                    Handling::Forward
                }
                &&& cache_view(final(self).cache@) == cache_view(old(self).cache@).push(
                    (id@, msg.head, msg.msg@, now),
                )
            },
            final(self).kad == old(self).kad,
            final(self).address == old(self).address,
            final(self).public_ip == old(self).public_ip,
            final(self).interval == old(self).interval,
            final(self).history_len == old(self).history_len,
            final(self).history_gossip == old(self).history_gossip,
            final(self).check == old(self).check,
            final(self).heartbeat == old(self).heartbeat,
            final(self).ping_pong == old(self).ping_pong,
    {
        let mut i: usize = 0;
        while i < self.cache.len()
            invariant
                i <= self.cache@.len(),
                *self == *old(self),
                self.wf(),
                forall|j: int| 0 <= j < i ==> self.cache@[j].0.0@ != id@,
            decreases self.cache@.len() - i,
        {
            if same_inner_key(&self.cache[i].0.0, &id) {
                assert(cache_view(self.cache@)[i as int].0 == id@);
                return Handling::Ignore;
            }
            i = i + 1;
        }
        assert forall|j: int| 0 <= j < cache_view(self.cache@).len() implies cache_view(self.cache@)[j].0 != id@ by {
            assert(cache_view(self.cache@)[j].0 == self.cache@[j].0.0@);
        }
        let ghost before = self.cache@;
        self.cache.push((MessageKey::from_inner(id), msg.clone(), now));
        assert(cache_view(self.cache@) =~= cache_view(before).push((id@, msg.head, msg.msg@, now)));
        if src != self.address {
            Handling::DeliverAndForward
        } else {
            Handling::Forward
        }
    }

    /// The local node's public address.
    pub fn get_pub_ip(&self) -> (r: Address)
        ensures
            r == self.public_ip,
    {
        self.public_ip
    }
}

/// Whether the address is in the list.
fn contains_address(v: &Vec<Address>, a: Address) -> (r: bool)
    ensures
        r == v@.contains(a),
{
    let mut i: usize = 0;
    while i < v.len()
        invariant
            i <= v@.len(),
            forall|j: int| 0 <= j < i ==> v@[j] != a,
        decreases v@.len() - i,
    {
        if v[i] == a {
            assert(v@[i as int] == a);
            return true;
        }
        i = i + 1;
    }
    false
}

proof fn lemma_distinct_addresses_distinct(peers: Seq<PeerInfo>, exclude: Address)
    ensures
        forall|a: int, b: int|
            0 <= a < b < distinct_addresses(peers, exclude).len() ==> distinct_addresses(peers, exclude)[a]
                != distinct_addresses(peers, exclude)[b],
    decreases peers.len(),
{
    if peers.len() > 0 {
        lemma_distinct_addresses_distinct(peers.drop_last(), exclude);
        let r = distinct_addresses(peers.drop_last(), exclude);
        let x = peers.last().address;
        if !(x == exclude || r.contains(x)) {
            assert forall|a: int, b: int| 0 <= a < b < r.push(x).len() implies r.push(x)[a] != r.push(x)[b] by {
                if b == r.len() {
                    assert(r.push(x)[a] == r[a]);
                    if r[a] == x {
                        assert(r.contains(x));
                    }
                }
            }
        }
    }
}

} // verus!
