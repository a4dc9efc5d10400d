use vstd::prelude::*;
use ritelinked::LinkedHashMap;
use crate::discovery::{MAX_BUCKET_LEN, REFRESH_INTEVAL};
use crate::discovery::linked_map::{bucket_entries, has_key, key_position, entries_insert, entries_remove, lemma_key_position, map_with_capacity, map_insert, map_contains_key, map_remove, map_pop_front, map_len, map_values, map_clone};
use crate::node::peer_id::PeerId;
use crate::node::peer_info::PeerInfo;
use crate::node::peer_key::{Key, xor_bytes, bit_string, leading_zero_bits, key_le, key_bit};
use crate::discovery::closest::{dist_to, sort_by_distance, sort_peers_by_distance, sorted_by_distance, lemma_sort_by_distance};
use crate::protocol::protocol::InnerKey;
use crate::utils::utils::{Distance, timestamp_now};

verus! {

/// The derivative data type used to maintain clusters of peers in the
/// routing table with the same xor prefix to the local peer.
#[derive(Debug)]
pub struct KBucket {
    nodes: LinkedHashMap<PeerId, PeerInfo>,
    last_updated: u128,
}

/// The entries of a bucket, least recently inserted first.
pub type Entries = Seq<(Seq<char>, PeerInfo)>;

/// The peers of a bucket's entries, in order.
pub open spec fn entry_peers(s: Entries) -> Seq<PeerInfo> {
    s.map_values(|e: (Seq<char>, PeerInfo)| e.1)
}

/// A bucket's entries are keyed by their peer's id, and no id occurs twice.
pub open spec fn entries_wf(s: Entries) -> bool {
    &&& forall|i: int| 0 <= i < s.len() ==> (#[trigger] s[i]).0 == s[i].1.id@
    &&& forall|i: int, j: int| 0 <= i < j < s.len() ==> (#[trigger] s[i]).0 != (#[trigger] s[j]).0
}

/// Upserting a peer: its entry moves to the back with the new value, or is
/// added there.
pub open spec fn entries_upsert(s: Entries, peer: PeerInfo) -> Entries {
    entries_insert(s, peer.id@, peer)
}

proof fn lemma_upsert_wf(s: Entries, peer: PeerInfo)
    requires
        entries_wf(s),
    ensures
        entries_wf(entries_upsert(s, peer)),
        entries_upsert(s, peer).len() == if has_key(s, peer.id@) {
            s.len()
        } else {
            s.len() + 1
        },
{
    let k = peer.id@;
    let r = entries_upsert(s, peer);
    if has_key(s, k) {
        lemma_key_position(s, k);
        let p = key_position(s, k);
        let t = s.remove(p);
        assert forall|i: int| 0 <= i < t.len() implies t[i].0 != k by {
            if i < p {
                assert(t[i] == s[i]);
            } else {
                assert(t[i] == s[i + 1]);
            }
        }
        assert forall|i: int, j: int| 0 <= i < j < r.len() implies (#[trigger] r[i]).0 != (
        #[trigger] r[j]).0 by {
            if j < r.len() - 1 {
                let ii = if i < p {
                    i
                } else {
                    i + 1
                };
                let jj = if j < p {
                    j
                } else {
                    j + 1
                };
                assert(r[i] == s[ii]);
                assert(r[j] == s[jj]);
            }
        }
        assert forall|i: int| 0 <= i < r.len() implies (#[trigger] r[i]).0 == r[i].1.id@ by {
            if i < r.len() - 1 {
                let ii = if i < p {
                    i
                } else {
                    i + 1
                };
                assert(r[i] == s[ii]);
            }
        }
    } else {
        assert forall|i: int, j: int| 0 <= i < j < r.len() implies (#[trigger] r[i]).0 != (
        #[trigger] r[j]).0 by {
            if j == r.len() - 1 {
                assert(r[i] == s[i]);
            }
        }
    }
}

proof fn lemma_remove_wf(s: Entries, k: Seq<char>)
    requires
        entries_wf(s),
    ensures
        entries_wf(entries_remove(s, k)),
{
    if has_key(s, k) {
        lemma_key_position(s, k);
        let p = key_position(s, k);
        let r = s.remove(p);
        assert forall|i: int| 0 <= i < r.len() implies (#[trigger] r[i]).0 == r[i].1.id@ by {
            let ii = if i < p {
                i
            } else {
                i + 1
            };
            assert(r[i] == s[ii]);
        }
        assert forall|i: int, j: int| 0 <= i < j < r.len() implies (#[trigger] r[i]).0 != (
        #[trigger] r[j]).0 by {
            let ii = if i < p {
                i
            } else {
                i + 1
            };
            let jj = if j < p {
                j
            } else {
                j + 1
            };
            assert(r[i] == s[ii]);
            assert(r[j] == s[jj]);
        }
    }
}

proof fn lemma_drop_first_wf(s: Entries)
    requires
        entries_wf(s),
        s.len() > 0,
    ensures
        entries_wf(s.drop_first()),
{
    let r = s.drop_first();
    assert forall|i: int| 0 <= i < r.len() implies (#[trigger] r[i]).0 == r[i].1.id@ by {
        assert(r[i] == s[i + 1]);
    }
    assert forall|i: int, j: int| 0 <= i < j < r.len() implies (#[trigger] r[i]).0 != (
    #[trigger] r[j]).0 by {
        assert(r[i] == s[i + 1]);
        assert(r[j] == s[j + 1]);
    }
}

impl KBucket {
    /// The bucket's entries, least recently inserted first.
    pub closed spec fn entries(&self) -> Entries {
        bucket_entries(self.nodes)
    }

    /// The peers of the bucket, least recently inserted first.
    pub open spec fn peers(&self) -> Seq<PeerInfo> {
        entry_peers(self.entries())
    }

    /// The bucket's invariant: entries keyed by their peer's id, no id twice,
    /// and no more entries than a usize can count.
    pub open spec fn wf(&self) -> bool {
        &&& entries_wf(self.entries())
        &&& self.entries().len() <= usize::MAX
    }

    /// When the bucket was last updated, in nanoseconds since the epoch.
    pub closed spec fn updated_at(&self) -> u128 {
        self.last_updated
    }

    /// Creates a new, empty KBucket with a "last update" of now, and a
    /// capacity of MAX_BUCKET_LEN.
    pub fn new() -> (r: Self)
        ensures
            r.wf(),
            r.entries() == Seq::<(Seq<char>, PeerInfo)>::empty(),
    {
        KBucket { nodes: map_with_capacity(MAX_BUCKET_LEN), last_updated: timestamp_now() }
    }

    /// Inserts and/or updates a peer into the bucket: inserting an already
    /// existing peer moves it to the back, making it the most recently used.
    /// It also updates the last updated field to now.
    pub fn upsert(&mut self, peer: &PeerInfo)
        requires
            old(self).wf(),
            old(self).entries().len() < usize::MAX,
        ensures
            final(self).wf(),
            final(self).entries() == entries_upsert(old(self).entries(), *peer),
    {
        self.last_updated = timestamp_now();
        proof {
            lemma_upsert_wf(bucket_entries(self.nodes), *peer);
        }
        map_insert(&mut self.nodes, peer.id.clone(), peer.clone());
    }

    /// Checks if the bucket contains the peer (by id).
    pub fn contains(&self, peer: &PeerInfo) -> (r: bool)
        ensures
            r == has_key(self.entries(), peer.id@),
    {
        map_contains_key(&self.nodes, &peer.id)
    }

    /// Creates and returns a new, empty bucket; the bucket itself is left
    /// as it was.
    pub fn split(&mut self, index: usize, prefix: String) -> (r: KBucket)
        ensures
            *final(self) == *old(self),
            r.wf(),
            r.entries() == Seq::<(Seq<char>, PeerInfo)>::empty(),
    {
        KBucket::new()
    }

    /// Returns a vector of all the peers in the bucket, least recently
    /// inserted first.
    pub fn get_nodes(&self) -> (r: Vec<PeerInfo>)
        ensures
            r@ == self.peers(),
    {
        map_values(&self.nodes)
    }

    /// Removes the least recently used peer from the bucket and returns it if
    /// one exists, otherwise returns None.
    pub fn remove_lru(&mut self) -> (r: Option<PeerInfo>)
        requires
            old(self).wf(),
        ensures
            final(self).wf(),
            old(self).entries().len() == 0 ==> r is None && final(self).entries() == old(
                self,
            ).entries(),
            old(self).entries().len() > 0 ==> r == Some(old(self).entries()[0].1)
                && final(self).entries() == old(self).entries().drop_first(),
            final(self).updated_at() == old(self).updated_at(),
    {
        if self.size() == 0 {
            None
        } else {
            proof {
                lemma_drop_first_wf(bucket_entries(self.nodes));
            }
            match map_pop_front(&mut self.nodes) {
                Some(kv) => Some(kv.1),
                None => None,
            }
        }
    }

    /// Removes the peer requested to be removed from the bucket (by id), if
    /// it exists, and returns it.
    pub fn remove_peer(&mut self, peer: &PeerInfo) -> (r: Option<PeerInfo>)
        requires
            old(self).wf(),
        ensures
            final(self).wf(),
            final(self).entries() == entries_remove(old(self).entries(), peer.id@),
            final(self).updated_at() == old(self).updated_at(),
            match r {
                Some(v) => has_key(old(self).entries(), peer.id@) && v == old(self).entries()[key_position(
                    old(self).entries(),
                    peer.id@,
                )].1,
                None => !has_key(old(self).entries(), peer.id@),
            },
    {
        proof {
            lemma_remove_wf(bucket_entries(self.nodes), peer.id@);
        }
        map_remove(&mut self.nodes, &peer.id)
    }

    /// Checks if the bucket holds MAX_BUCKET_LEN peers or more.
    pub fn is_full(&self) -> (r: bool)
        ensures
            r == (self.entries().len() >= MAX_BUCKET_LEN),
    {
        map_len(&self.nodes) >= MAX_BUCKET_LEN
    }

    /// Whether the bucket is stale at time `now`.
    pub open spec fn is_stale_at_spec(&self, now: u128) -> bool {
        now > self.updated_at() && now - self.updated_at() > REFRESH_INTEVAL
    }

    /// Checks if the bucket has not been updated for longer than
    /// REFRESH_INTEVAL at time `now`. A clock that reads earlier than the
    /// last update counts as no time passed.
    pub fn is_stale_at(&self, now: u128) -> (r: bool)
        ensures
            r == self.is_stale_at_spec(now),
    {
        now > self.last_updated && now - self.last_updated > REFRESH_INTEVAL
    }

    /// Checks if the bucket has become stale at the time the clock reads.
    pub fn is_stale(&self) -> (r: bool)
        ensures
            exists|now: u128| r == #[trigger] self.is_stale_at_spec(now),
    {
        self.is_stale_at(timestamp_now())
    }

    /// Returns the number of entries in the bucket.
    pub fn size(&self) -> (r: usize)
        ensures
            r == self.entries().len(),
    {
        map_len(&self.nodes)
    }
}

impl Clone for KBucket {
    fn clone(&self) -> (r: Self)
        ensures
            r.entries() == self.entries(),
            r.updated_at() == self.updated_at(),
    {
        KBucket { nodes: map_clone(&self.nodes), last_updated: self.last_updated }
    }
}


/// The core data structure which maintains the buckets, each under the XOR
/// prefix (a string of '0' and '1') of the distances of its peers to the
/// local peer, and the local peer's own info used to measure distances.
#[derive(Debug)]
pub struct RoutingTable {
    pub tree: Vec<(String, KBucket)>,
    pub local_info: PeerInfo,
}

/// The tree seen as its prefixes' texts and its buckets' entries.
pub type TableView = Seq<(Seq<char>, Entries)>;

/// The view of a tree.
pub open spec fn table_view(tree: Seq<(String, KBucket)>) -> TableView {
    Seq::new(tree.len(), |i: int| (tree[i].0@, tree[i].1.entries()))
}

/// Whether some bucket has prefix `p`.
pub open spec fn has_prefix(tv: TableView, p: Seq<char>) -> bool {
    exists|i: int| 0 <= i < tv.len() && tv[i].0 == p
}

/// The position of the bucket with prefix `p`.
pub open spec fn prefix_position(tv: TableView, p: Seq<char>) -> int {
    choose|i: int| 0 <= i < tv.len() && tv[i].0 == p
}

/// The number of peers in all the buckets.
pub open spec fn peer_count(tv: TableView) -> nat
    decreases tv.len(),
{
    if tv.len() == 0 {
        0
    } else {
        peer_count(tv.drop_last()) + tv.last().1.len()
    }
}

/// All the peers of the table: the buckets' peers, bucket after bucket.
pub open spec fn all_peers(tv: TableView) -> Seq<PeerInfo>
    decreases tv.len(),
{
    if tv.len() == 0 {
        Seq::empty()
    } else {
        all_peers(tv.drop_last()) + entry_peers(tv.last().1)
    }
}

/// The table's invariant: at least one bucket; each prefix has between 1 and
/// 256 bits; no prefix occurs twice; every bucket is well formed; and the
/// peers can be counted in a usize.
pub open spec fn table_wf(tree: Seq<(String, KBucket)>) -> bool {
    let tv = table_view(tree);
    &&& tree.len() >= 1
    &&& forall|i: int| 0 <= i < tree.len() ==> 1 <= (#[trigger] tree[i]).0@.len() <= 256
    &&& forall|i: int, j: int| 0 <= i < j < tree.len() ==> (#[trigger] tree[i]).0@ != (
    #[trigger] tree[j]).0@
    &&& forall|i: int| 0 <= i < tree.len() ==> (#[trigger] tree[i]).1.wf()
    &&& peer_count(tv) <= usize::MAX
}

/// Where `update_peer` starting at prefix length `t + 1` places a peer at
/// XOR distance `d`: the first prefix length from there whose bucket is
/// missing or not full, or `None` when every bucket up to 256 bits is full.
pub open spec fn placement(tv: TableView, d: Seq<u8>, t: nat) -> Option<nat>
    decreases 256 - t,
{
    if t >= 256 {
        None
    } else if !has_prefix(tv, bit_string(d, t + 1)) {
        Some(t)
    } else if tv[prefix_position(tv, bit_string(d, t + 1))].1.len() < MAX_BUCKET_LEN {
        Some(t)
    } else {
        placement(tv, d, t + 1)
    }
}

/// The table after placing `peer` at prefix `p`: into the bucket with that
/// prefix, or into a new bucket added at the end.
pub open spec fn table_upsert(tv: TableView, p: Seq<char>, peer: PeerInfo) -> TableView {
    if has_prefix(tv, p) {
        let i = prefix_position(tv, p);
        tv.update(i, (p, entries_upsert(tv[i].1, peer)))
    } else {
        tv.push((p, seq![(peer.id@, peer)]))
    }
}

/// The table after `update_peer(peer, traverse)`.
pub open spec fn table_after_update(tv: TableView, local_key: Seq<u8>, peer: PeerInfo, traverse: nat) -> TableView {
    let d = xor_bytes(local_key, peer.key@);
    match placement(tv, d, traverse) {
        Some(t) => table_upsert(tv, bit_string(d, t + 1), peer),
        None => tv,
    }
}

/// The position that `remove_lru` and `remove_peer` look at for a key:
/// the leading zeros of its distance to the local key, at most the last
/// position of the tree.
pub open spec fn removal_index(tv: TableView, local_key: Seq<u8>, key: Seq<u8>) -> nat {
    let lz = leading_zero_bits(xor_bytes(local_key, key));
    if lz <= tv.len() - 1 {
        lz
    } else {
        (tv.len() - 1) as nat
    }
}

/// When each bucket of the tree was last updated.
pub open spec fn bucket_times(tree: Seq<(String, KBucket)>) -> Seq<u128> {
    Seq::new(tree.len(), |i: int| tree[i].1.updated_at())
}

/// The position of the existing bucket that `update_peer(peer, t)` puts a
/// peer at XOR distance `d` into, or -1 where it adds a new bucket or places
/// the peer nowhere.
pub open spec fn update_slot(tv: TableView, d: Seq<u8>, t: nat) -> int {
    match placement(tv, d, t) {
        Some(s) => if has_prefix(tv, bit_string(d, s + 1)) {
            prefix_position(tv, bit_string(d, s + 1))
        } else {
            -1
        },
        None => -1,
    }
}

/// Adding a bucket adds its peers to the count and to the list of peers.
pub proof fn lemma_peer_count_push(tv: TableView, x: (Seq<char>, Entries))
    ensures
        peer_count(tv.push(x)) == peer_count(tv) + x.1.len(),
        all_peers(tv.push(x)) == all_peers(tv) + entry_peers(x.1),
{
    assert(tv.push(x).drop_last() =~= tv);
}

/// Replacing a bucket changes the count by the difference of the sizes.
pub proof fn lemma_peer_count_update(tv: TableView, i: int, x: (Seq<char>, Entries))
    requires
        0 <= i < tv.len(),
    ensures
        peer_count(tv.update(i, x)) == peer_count(tv) - tv[i].1.len() + x.1.len(),
    decreases tv.len(),
{
    if i == tv.len() - 1 {
        assert(tv.update(i, x).drop_last() =~= tv.drop_last());
    } else {
        lemma_peer_count_update(tv.drop_last(), i, x);
        assert(tv.update(i, x).drop_last() =~= tv.drop_last().update(i, x));
    }
}

proof fn lemma_all_peers_len(tv: TableView)
    ensures
        all_peers(tv).len() == peer_count(tv),
    decreases tv.len(),
{
    if tv.len() > 0 {
        lemma_all_peers_len(tv.drop_last());
    }
}

impl RoutingTable {
    /// The view of the table's tree.
    pub open spec fn view_tree(&self) -> TableView {
        table_view(self.tree@)
    }

    /// The table's invariant.
    pub open spec fn wf(&self) -> bool {
        table_wf(self.tree@)
    }

    /// Finds the position of the bucket with the given prefix.
    fn find_bucket(&self, prefix: &String) -> (r: Option<usize>)
        requires
            self.wf(),
        ensures
            match r {
                Some(i) => i < self.tree@.len() && self.view_tree()[i as int].0 == prefix@
                    && prefix_position(self.view_tree(), prefix@) == i,
                None => !has_prefix(self.view_tree(), prefix@),
            },
    {
        let mut i: usize = 0;
        while i < self.tree.len()
            invariant
                i <= self.tree@.len(),
                self.wf(),
                forall|j: int| 0 <= j < i ==> self.tree@[j].0@ != prefix@,
            decreases self.tree@.len() - i,
        {
            if self.tree[i].0 == *prefix {
                let ghost tv = self.view_tree();
                proof {
                    assert(tv[i as int].0 == prefix@);
                    let q = prefix_position(tv, prefix@);
                    assert(tv[q].0 == self.tree@[q].0@);
                    if q != i {
                        if q < i {
                            assert(self.tree@[q].0@ != self.tree@[i as int].0@);
                        } else {
                            assert(self.tree@[i as int].0@ != self.tree@[q].0@);
                        }
                    }
                }
                return Some(i);
            }
            i = i + 1;
        }
        proof {
            let tv = self.view_tree();
            assert forall|j: int| 0 <= j < tv.len() implies tv[j].0 != prefix@ by {
                assert(tv[j].0 == self.tree@[j].0@);
            }
        }
        None
    }

    /// Creates a new instance of a RoutingTable, with the local peer in a
    /// bucket under the prefix of its distance to itself.
    pub fn new(local_info: PeerInfo) -> (r: Self)
        ensures
            r.wf(),
            r.local_info == local_info,
            r.view_tree() == seq![
                (bit_string(xor_bytes(local_info.key@, local_info.key@), 1), seq![(local_info.id@, local_info)]),
            ],
    {
        let mut tree: Vec<(String, KBucket)> = Vec::new();
        let mut kbucket = KBucket::new();
        kbucket.upsert(&local_info);
        let prefix = local_info.get_key().xor(local_info.get_key()).get_prefix(0);
        assert(entries_upsert(Seq::empty(), local_info) =~= seq![(local_info.id@, local_info)]);
        tree.push((prefix, kbucket));
        let r = RoutingTable { tree, local_info };
        proof {
            assert(r.view_tree() =~= seq![
                (bit_string(xor_bytes(local_info.key@, local_info.key@), 1), seq![(local_info.id@, local_info)]),
            ]);
            assert(r.view_tree().drop_last() =~= Seq::<(Seq<char>, Entries)>::empty());
            assert(peer_count(r.view_tree().drop_last()) == 0);
            assert(peer_count(r.view_tree()) == 1);
            assert(r.tree@[0].0@.len() == 1);
            assert(r.tree@[0].1.wf());
        }
        r
    }

    /// Recursively inserts or updates a peer into the routing table in the
    /// proper kbucket: the bucket under the first `traverse + 1` bits of the
    /// peer's distance to the local key, or, while that bucket is full, the
    /// next longer prefix. A missing bucket is created. Gives false, and
    /// leaves the table as it was, when every bucket up to the full 256 bit
    /// prefix is full.
    pub fn update_peer(&mut self, peer_info: &PeerInfo, traverse: usize) -> (r: bool)
        requires
            old(self).wf(),
            traverse < 256,
            peer_count(old(self).view_tree()) < usize::MAX,
        ensures
            final(self).wf(),
            final(self).local_info == old(self).local_info,
            r == placement(
                old(self).view_tree(),
                xor_bytes(old(self).local_info.key@, peer_info.key@),
                traverse as nat,
            ) is Some,
            final(self).view_tree() == table_after_update(
                old(self).view_tree(),
                old(self).local_info.key@,
                *peer_info,
                traverse as nat,
            ),
            forall|j: int|
                0 <= j < old(self).tree@.len() && j != update_slot(
                    old(self).view_tree(),
                    xor_bytes(old(self).local_info.key@, peer_info.key@),
                    traverse as nat,
                ) ==> (#[trigger] final(self).tree@[j]).1.updated_at() == old(self).tree@[j].1.updated_at(),
            buckets_bounded(old(self).view_tree()) ==> buckets_bounded(final(self).view_tree()),
        decreases 256 - traverse,
    {
        proof {
            if buckets_bounded(old(self).view_tree()) {
                lemma_update_keeps_buckets_bounded(
                    old(self).view_tree(),
                    old(self).local_info.key@,
                    *peer_info,
                    traverse as nat,
                );
            }
        }
        let distance = self.local_info.get_key().xor(peer_info.get_key());
        let prefix = distance.get_prefix(traverse);
        let ghost tv = self.view_tree();
        let ghost d = distance@;
        assert(d == xor_bytes(old(self).local_info.key@, peer_info.key@));
        assert(prefix@ == bit_string(d, traverse as nat + 1));
        match self.find_bucket(&prefix) {
            Some(i) => {
                assert(has_prefix(tv, prefix@));
                assert(tv[i as int].1 == self.tree@[i as int].1.entries());
                if !self.tree[i].1.is_full() {
                    assert(placement(tv, d, traverse as nat) == Some(traverse as nat));
                    let (p, mut bucket) = self.tree.remove(i);
                    bucket.upsert(peer_info);
                    self.tree.insert(i, (p, bucket));
                    proof {
                        assert(update_slot(tv, d, traverse as nat) == i);
                        assert forall|j: int| 0 <= j < old(self).tree@.len() && j != i implies
                            #[trigger] self.tree@[j] == old(self).tree@[j] by {}
                        lemma_upsert_wf(tv[i as int].1, *peer_info);
                        let new_tv = tv.update(i as int, (prefix@, entries_upsert(tv[i as int].1, *peer_info)));
                        assert(self.view_tree() =~= new_tv);
                        lemma_peer_count_update(tv, i as int, (prefix@, entries_upsert(tv[i as int].1, *peer_info)));
                        assert forall|a: int, b: int| 0 <= a < b < self.tree@.len() implies
                            (#[trigger] self.tree@[a]).0@ != (#[trigger] self.tree@[b]).0@ by {
                            assert(self.tree@[a].0@ == old(self).tree@[a].0@);
                            assert(self.tree@[b].0@ == old(self).tree@[b].0@);
                        }
                        assert forall|a: int| 0 <= a < self.tree@.len() implies 1 <= (
                        #[trigger] self.tree@[a]).0@.len() <= 256 && self.tree@[a].1.wf() by {
                            assert(self.tree@[a].0@ == old(self).tree@[a].0@);
                        }
                    }
                    true
                } else if traverse + 1 < 256 {
                    assert(placement(tv, d, traverse as nat) == placement(tv, d, traverse as nat + 1));
                    assert(update_slot(tv, d, traverse as nat) == update_slot(tv, d, traverse as nat + 1));
                    self.update_peer(peer_info, traverse + 1)
                } else {
                    assert(placement(tv, d, traverse as nat + 1) is None);
                    assert(placement(tv, d, traverse as nat) is None);
                    false
                }
            },
            None => {
                assert(placement(tv, d, traverse as nat) == Some(traverse as nat));
                let mut new_bucket = KBucket::new();
                new_bucket.upsert(peer_info);
                self.tree.push((prefix, new_bucket));
                proof {
                    assert(entries_upsert(Seq::empty(), *peer_info) =~= seq![(peer_info.id@, *peer_info)]);
                    let x = (prefix@, seq![(peer_info.id@, *peer_info)]);
                    assert(self.view_tree() =~= tv.push(x));
                    lemma_peer_count_push(tv, x);
                    assert forall|a: int, b: int| 0 <= a < b < self.tree@.len() implies
                        (#[trigger] self.tree@[a]).0@ != (#[trigger] self.tree@[b]).0@ by {
                        if b == self.tree@.len() - 1 {
                            assert(tv[a].0 == self.tree@[a].0@);
                        }
                    }
                }
                true
            },
        }
    }

    /// Removes the least recently used peer from the bucket under the first
    /// `removal_index + 1` bits of the key's distance to the local key, if
    /// that bucket exists and is not empty, and returns it.
    pub fn remove_lru(&mut self, peer_key: &InnerKey) -> (r: Option<PeerInfo>)
        requires
            old(self).wf(),
            removal_index(old(self).view_tree(), old(self).local_info.key@, peer_key@) < 256,
        ensures
            final(self).wf(),
            final(self).local_info == old(self).local_info,
            ({
                let tv = old(self).view_tree();
                let d = xor_bytes(old(self).local_info.key@, peer_key@);
                let p = bit_string(d, removal_index(tv, old(self).local_info.key@, peer_key@) + 1);
                if has_prefix(tv, p) && tv[prefix_position(tv, p)].1.len() > 0 {
                    let i = prefix_position(tv, p);
                    &&& r == Some(tv[i].1[0].1)
                    &&& final(self).view_tree() == tv.update(i, (p, tv[i].1.drop_first()))
                    &&& peer_count(final(self).view_tree()) == peer_count(tv) - 1
                } else {
                    &&& r is None
                    &&& final(self).tree == old(self).tree
                }
            }),
            bucket_times(final(self).tree@) == bucket_times(old(self).tree@),
    {
        let ghost tv = self.view_tree();
        let distance = self.local_info.get_key().xor(Key::new(*peer_key));
        let lz = distance.leading_zeros();
        let last: usize = self.tree.len() - 1;
        let index: usize = if lz <= last {
            lz
        } else {
            last
        };
        let prefix = distance.get_prefix(index);
        match self.find_bucket(&prefix) {
            Some(i) => {
                if self.tree[i].1.size() == 0 {
                    return None;
                }
                let (p, mut bucket) = self.tree.remove(i);
                let r = bucket.remove_lru();
                self.tree.insert(i, (p, bucket));
                proof {
                    let x = (prefix@, bucket.entries());
                    assert(self.view_tree() =~= tv.update(i as int, x));
                    lemma_peer_count_update(tv, i as int, x);
                    assert(bucket_times(self.tree@) =~= bucket_times(old(self).tree@));
                    assert forall|a: int, b: int| 0 <= a < b < self.tree@.len() implies
                        (#[trigger] self.tree@[a]).0@ != (#[trigger] self.tree@[b]).0@ by {
                        assert(self.tree@[a].0@ == old(self).tree@[a].0@);
                        assert(self.tree@[b].0@ == old(self).tree@[b].0@);
                    }
                    assert forall|a: int| 0 <= a < self.tree@.len() implies 1 <= (
                    #[trigger] self.tree@[a]).0@.len() <= 256 && self.tree@[a].1.wf() by {
                        assert(self.tree@[a].0@ == old(self).tree@[a].0@);
                    }
                }
                r
            },
            None => None,
        }
    }

    /// Removes a specified peer (by id) from the routing table: from every
    /// bucket that holds it. The peer is new to the table afterwards.
    pub fn remove_peer(&mut self, peer_info: &PeerInfo)
        requires
            old(self).wf(),
        ensures
            final(self).wf(),
            final(self).local_info == old(self).local_info,
            final(self).view_tree() == table_without(old(self).view_tree(), peer_info.id@),
            !table_has_id(final(self).view_tree(), peer_info.id@),
            bucket_times(final(self).tree@) == bucket_times(old(self).tree@),
    {
        let ghost tv = self.view_tree();
        let ghost id = peer_info.id@;
        let mut i: usize = 0;
        while i < self.tree.len()
            invariant
                self.wf(),
                self.local_info == old(self).local_info,
                id == peer_info.id@,
                tv == table_view(old(self).tree@),
                self.tree@.len() == tv.len(),
                i <= tv.len(),
                forall|j: int| 0 <= j < tv.len() ==> (#[trigger] self.tree@[j]).0@ == tv[j].0,
                forall|j: int| 0 <= j < i ==> (#[trigger] self.view_tree()[j]) == (tv[j].0, entries_remove(tv[j].1, id)),
                forall|j: int| i <= j < tv.len() ==> (#[trigger] self.view_tree()[j]) == tv[j],
                bucket_times(self.tree@) == bucket_times(old(self).tree@),
            decreases tv.len() - i,
        {
            let ghost tv_i = self.view_tree();
            let ghost old_tree = self.tree@;
            let (p, mut bucket) = self.tree.remove(i);
            let _ = bucket.remove_peer(peer_info);
            self.tree.insert(i, (p, bucket));
            proof {
                let x = (p@, bucket.entries());
                assert(self.view_tree() =~= tv_i.update(i as int, x));
                lemma_peer_count_update(tv_i, i as int, x);
                let e = tv_i[i as int].1;
                if has_key(e, id) {
                    lemma_key_position(e, id);
                }
                assert forall|a: int, b: int| 0 <= a < b < self.tree@.len() implies
                    (#[trigger] self.tree@[a]).0@ != (#[trigger] self.tree@[b]).0@ by {
                    assert(self.tree@[a].0@ == old_tree[a].0@);
                    assert(self.tree@[b].0@ == old_tree[b].0@);
                }
                assert forall|a: int| 0 <= a < self.tree@.len() implies 1 <= (
                #[trigger] self.tree@[a]).0@.len() <= 256 && self.tree@[a].1.wf() by {
                    assert(self.tree@[a].0@ == old_tree[a].0@);
                }
                assert forall|j: int| 0 <= j < tv.len() implies (#[trigger] self.tree@[j]).0@ == tv[j].0 by {
                    assert(self.tree@[j].0@ == old_tree[j].0@);
                }
                assert(bucket_times(self.tree@) =~= bucket_times(old_tree));
            }
            i = i + 1;
        }
        proof {
            assert(self.view_tree() =~= table_without(tv, id));
            lemma_table_without_has_no_id(tv, id);
        }
    }

    /// Returns the `count` closest peers to the requested peer as measured by
    /// XOR, nearest first (see `closest_peers`): no peer of the table that is
    /// left out is closer than one returned. If the table holds no more than
    /// `count` peers, all of them are returned in table order.
    pub fn get_closest_peers(&self, peer_info: PeerInfo, count: usize) -> (r: Vec<PeerInfo>)
        requires
            self.wf(),
        ensures
            r@ == closest_peers(self.view_tree(), peer_info.key@, count as nat),
    {
        if self.total_peers() <= count {
            return self.get_all_peers();
        }
        let all = self.get_all_peers();
        let mut sorted = sort_peers_by_distance(&all, &peer_info.key);
        sorted.truncate(count);
        sorted
    }

    /// Get the number of kbuckets in the tree
    pub fn size(&self) -> (r: usize)
        ensures
            r == self.view_tree().len(),
    {
        self.tree.len()
    }

    /// Get the total number of peers in the tree (sum of the size of all the kbuckets)
    pub fn total_peers(&self) -> (r: usize)
        requires
            self.wf(),
        ensures
            r == peer_count(self.view_tree()),
    {
        let mut acc: usize = 0;
        let mut i: usize = 0;
        while i < self.tree.len()
            invariant
                self.wf(),
                i <= self.tree@.len(),
                acc == peer_count(self.view_tree().take(i as int)),
            decreases self.tree@.len() - i,
        {
            proof {
                let tv = self.view_tree();
                assert(tv.take(i + 1).drop_last() =~= tv.take(i as int));
                lemma_peer_count_prefix(tv, i as nat + 1);
            }
            acc = acc + self.tree[i].1.size();
            i = i + 1;
        }
        assert(self.view_tree().take(i as int) =~= self.view_tree());
        acc
    }

    /// Get all the peers in the routing table: the peers of each bucket in
    /// turn.
    pub fn get_all_peers(&self) -> (r: Vec<PeerInfo>)
        ensures
            r@ == all_peers(self.view_tree()),
    {
        let mut ret: Vec<PeerInfo> = Vec::new();
        let mut i: usize = 0;
        while i < self.tree.len()
            invariant
                i <= self.tree@.len(),
                ret@ == all_peers(self.view_tree().take(i as int)),
            decreases self.tree@.len() - i,
        {
            let mut nodes = self.tree[i].1.get_nodes();
            ret.append(&mut nodes);
            proof {
                let tv = self.view_tree();
                assert(tv.take(i + 1).drop_last() =~= tv.take(i as int));
            }
            i = i + 1;
        }
        assert(self.view_tree().take(i as int) =~= self.view_tree());
        ret
    }

    /// Check if a peer is a new peer, i.e. no bucket holds its id.
    pub fn is_new(&self, peer: &PeerInfo) -> (r: bool)
        ensures
            r == !(exists|i: int|
                0 <= i < self.view_tree().len() && has_key(#[trigger] self.view_tree()[i].1, peer.id@)),
    {
        let mut i: usize = 0;
        while i < self.tree.len()
            invariant
                i <= self.tree@.len(),
                forall|j: int| 0 <= j < i ==> !has_key(#[trigger] self.view_tree()[j].1, peer.id@),
            decreases self.tree@.len() - i,
        {
            if self.tree[i].1.contains(peer) {
                assert(has_key(self.view_tree()[i as int].1, peer.id@));
                return false;
            }
            i = i + 1;
        }
        true
    }

    /// The prefixes of the buckets that are stale at time `now`, in tree order.
    pub fn get_stale_indices_at(&self, now: u128) -> (r: Vec<String>)
        ensures
            strings_view(r@) == stale_prefixes(self.tree@, now),
    {
        let mut ret: Vec<String> = Vec::new();
        let mut i: usize = 0;
        while i < self.tree.len()
            invariant
                i <= self.tree@.len(),
                strings_view(ret@) == stale_prefixes(self.tree@.take(i as int), now),
            decreases self.tree@.len() - i,
        {
            proof {
                let t = self.tree@;
                assert(t.take(i + 1).drop_last() =~= t.take(i as int));
            }
            if self.tree[i].1.is_stale_at(now) {
                let ghost before = ret@;
                ret.push(self.tree[i].0.clone());
                assert(strings_view(ret@) =~= strings_view(before).push(self.tree@[i as int].0@));
            }
            i = i + 1;
        }
        assert(self.tree@.take(i as int) =~= self.tree@);
        ret
    }

    /// Get the prefixes of the stale buckets, reading the clock: they are the
    /// stale prefixes at the time read.
    pub fn get_stale_indices(&self) -> (r: Vec<String>)
        ensures
            exists|now: u128| strings_view(r@) == #[trigger] stale_prefixes(self.tree@, now),
    {
        self.get_stale_indices_at(timestamp_now())
    }
}

/// The prefixes of the buckets that are stale at time `now`, in tree order.
pub open spec fn stale_prefixes(tree: Seq<(String, KBucket)>, now: u128) -> Seq<Seq<char>>
    decreases tree.len(),
{
    if tree.len() == 0 {
        Seq::empty()
    } else if tree.last().1.is_stale_at_spec(now) {
        stale_prefixes(tree.drop_last(), now).push(tree.last().0@)
    } else {
        stale_prefixes(tree.drop_last(), now)
    }
}

/// A bucket is stale at `now` exactly when more than REFRESH_INTEVAL
/// nanoseconds have passed since its last update.
pub proof fn lemma_stale_after_refresh_interval(b: KBucket, now: u128)
    ensures
        now > b.updated_at() + REFRESH_INTEVAL ==> b.is_stale_at_spec(now),
        b.is_stale_at_spec(now) ==> now > b.updated_at() + REFRESH_INTEVAL,
{
}

/// The stale prefixes at `now` are exactly those of the buckets updated
/// more than REFRESH_INTEVAL nanoseconds before `now`.
pub proof fn lemma_stale_prefixes_listed(tree: Seq<(String, KBucket)>, now: u128, p: Seq<char>)
    ensures
        stale_prefixes(tree, now).contains(p) <==> exists|i: int|
            0 <= i < tree.len() && (#[trigger] tree[i]).0@ == p && now > tree[i].1.updated_at()
                + REFRESH_INTEVAL,
    decreases tree.len(),
{
    if tree.len() > 0 {
        let d = tree.drop_last();
        lemma_stale_prefixes_listed(d, now, p);
        let r = stale_prefixes(d, now);
        let s = stale_prefixes(tree, now);
        let last = tree.last();
        if exists|i: int| 0 <= i < tree.len() && (#[trigger] tree[i]).0@ == p && now > tree[i].1.updated_at()
            + REFRESH_INTEVAL {
            let i = choose|i: int|
                0 <= i < tree.len() && (#[trigger] tree[i]).0@ == p && now > tree[i].1.updated_at()
                    + REFRESH_INTEVAL;
            if i < tree.len() - 1 {
                assert(d[i] == tree[i]);
                let m = choose|m: int| 0 <= m < r.len() && r[m] == p;
                if last.1.is_stale_at_spec(now) {
                    assert(s == r.push(last.0@));
                    assert(s[m] == r[m]);
                }
            } else {
                assert(tree[i] == last);
                assert(s == r.push(last.0@));
                assert(s[r.len() as int] == p);
            }
        }
        if s.contains(p) {
            let k = choose|k: int| 0 <= k < s.len() && s[k] == p;
            if last.1.is_stale_at_spec(now) && k == r.len() {
                assert(tree[tree.len() - 1] == last);
            } else {
                assert(s[k] == r[k]);
                assert(r.contains(p));
                let i = choose|i: int|
                    0 <= i < d.len() && (#[trigger] d[i]).0@ == p && now > d[i].1.updated_at() + REFRESH_INTEVAL;
                assert(tree[i] == d[i]);
            }
        }
    }
}

/// The texts of a sequence of strings.
pub open spec fn strings_view(v: Seq<String>) -> Seq<Seq<char>> {
    Seq::new(v.len(), |i: int| v[i]@)
}

proof fn lemma_peer_count_prefix(tv: TableView, k: nat)
    requires
        1 <= k <= tv.len(),
    ensures
        peer_count(tv.take(k as int)) == peer_count(tv.take(k - 1)) + tv[k - 1].1.len(),
        peer_count(tv.take(k as int)) <= peer_count(tv),
    decreases tv.len() - k,
{
    assert(tv.take(k as int).drop_last() =~= tv.take(k - 1));
    if k < tv.len() {
        lemma_peer_count_prefix(tv, k + 1);
    } else {
        assert(tv.take(k as int) =~= tv);
    }
}

/// At most the first `n` elements.
pub open spec fn truncate_to<A>(s: Seq<A>, n: nat) -> Seq<A> {
    if n <= s.len() {
        s.take(n as int)
    } else {
        s
    }
}

/// The closest peers to a target key that the table reports. With no more
/// than `count` peers in the table: all of them. Otherwise every peer of the
/// table, ordered by XOR distance to the target (a stable sort), cut to
/// `count`.
pub open spec fn closest_peers(tv: TableView, target: Seq<u8>, count: nat) -> Seq<PeerInfo> {
    if peer_count(tv) <= count {
        all_peers(tv)
    } else {
        truncate_to(sort_by_distance(all_peers(tv), target), count)
    }
}

/// The table with the entry under `id` taken out of every bucket.
pub open spec fn table_without(tv: TableView, id: Seq<char>) -> TableView {
    Seq::new(tv.len(), |i: int| (tv[i].0, entries_remove(tv[i].1, id)))
}

/// Taking an id out of every bucket (whose ids occur once) leaves no entry
/// under it.
proof fn lemma_table_without_has_no_id(tv: TableView, id: Seq<char>)
    requires
        forall|i: int| 0 <= i < tv.len() ==> entries_wf(#[trigger] tv[i].1),
    ensures
        !table_has_id(table_without(tv, id), id),
{
    assert forall|i: int| 0 <= i < tv.len() implies !has_key(#[trigger] table_without(tv, id)[i].1, id) by {
        let e = tv[i].1;
        if has_key(e, id) {
            lemma_key_position(e, id);
            let p = key_position(e, id);
            let r = e.remove(p);
            assert forall|k: int| 0 <= k < r.len() implies r[k].0 != id by {
                if k < p {
                    assert(r[k] == e[k]);
                } else {
                    assert(r[k] == e[k + 1]);
                }
            }
        }
    }
}

/// Whether some bucket of the table holds an entry for the id.
pub open spec fn table_has_id(tv: TableView, id: Seq<char>) -> bool {
    exists|i: int| 0 <= i < tv.len() && has_key(#[trigger] tv[i].1, id)
}

/// Whether every bucket holds at most MAX_BUCKET_LEN peers.
pub open spec fn buckets_bounded(tv: TableView) -> bool {
    forall|i: int| 0 <= i < tv.len() ==> (#[trigger] tv[i]).1.len() <= MAX_BUCKET_LEN
}

proof fn lemma_placement_room(tv: TableView, d: Seq<u8>, t: nat)
    requires
        placement(tv, d, t) is Some,
    ensures
        ({
            let s = placement(tv, d, t)->0;
            !has_prefix(tv, bit_string(d, s + 1)) || tv[prefix_position(tv, bit_string(d, s + 1))].1.len()
                < MAX_BUCKET_LEN
        }),
    decreases 256 - t,
{
    if t < 256 && has_prefix(tv, bit_string(d, t + 1)) && tv[prefix_position(tv, bit_string(d, t + 1))].1.len()
        >= MAX_BUCKET_LEN {
        lemma_placement_room(tv, d, t + 1);
    }
}

/// Updating a peer keeps every bucket at MAX_BUCKET_LEN peers or fewer: a
/// peer only goes into a bucket that is not full, or into a new bucket.
pub proof fn lemma_update_keeps_buckets_bounded(tv: TableView, local_key: Seq<u8>, peer: PeerInfo, traverse: nat)
    requires
        buckets_bounded(tv),
    ensures
        buckets_bounded(table_after_update(tv, local_key, peer, traverse)),
{
    let d = xor_bytes(local_key, peer.key@);
    let after = table_after_update(tv, local_key, peer, traverse);
    if placement(tv, d, traverse) is Some {
        lemma_placement_room(tv, d, traverse);
        let t = placement(tv, d, traverse)->0;
        let p = bit_string(d, t + 1);
        if has_prefix(tv, p) {
            let i = prefix_position(tv, p);
            let e = tv[i].1;
            if has_key(e, peer.id@) {
                lemma_key_position(e, peer.id@);
            }
            assert(entries_upsert(e, peer).len() <= e.len() + 1);
            assert forall|j: int| 0 <= j < after.len() implies (#[trigger] after[j]).1.len() <= MAX_BUCKET_LEN by {
                if j != i {
                    assert(after[j] == tv[j]);
                }
            }
        } else {
            assert forall|j: int| 0 <= j < after.len() implies (#[trigger] after[j]).1.len() <= MAX_BUCKET_LEN by {
                if j < tv.len() {
                    assert(after[j] == tv[j]);
                }
            }
        }
    }
}

/// `remove_lru` looks in the bucket of the key's XOR distance to the local
/// key: a peer whose distance starts with a one bit, put by
/// `update_peer(peer, 0)` into a new one-bit bucket, is the least recently
/// used peer of the bucket that `remove_lru` of its key then empties.
pub proof fn lemma_remove_lru_finds_placed_peer(tv: TableView, local_key: Seq<u8>, peer: PeerInfo)
    requires
        key_bit(xor_bytes(local_key, peer.key@), 0),
        !has_prefix(tv, bit_string(xor_bytes(local_key, peer.key@), 1)),
    ensures
        ({
            let d = xor_bytes(local_key, peer.key@);
            let after = table_after_update(tv, local_key, peer, 0);
            let p = bit_string(d, removal_index(after, local_key, peer.key@) + 1);
            &&& has_prefix(after, p)
            &&& after[prefix_position(after, p)].1.len() > 0
            &&& after[prefix_position(after, p)].1[0].1 == peer
        }),
{
    let d = xor_bytes(local_key, peer.key@);
    let p1 = bit_string(d, 1);
    assert(placement(tv, d, 0) == Some(0nat));
    let after = table_after_update(tv, local_key, peer, 0);
    assert(after == tv.push((p1, seq![(peer.id@, peer)])));
    assert(leading_zero_bits(d) == 0);
    assert(removal_index(after, local_key, peer.key@) == 0);
    let n = tv.len() as int;
    assert(after[n].0 == p1);
    assert(has_prefix(after, p1));
    let j = prefix_position(after, p1);
    if j < n {
        assert(after[j] == tv[j]);
        assert(has_prefix(tv, p1));
    }
    assert(j == n);
}

/// After `update_peer` reports success, the peer is known to the table: a
/// bucket holds an entry under its id (so `is_new` is false for it).
pub proof fn lemma_update_peer_known(tv: TableView, local_key: Seq<u8>, peer: PeerInfo, traverse: nat)
    requires
        placement(tv, xor_bytes(local_key, peer.key@), traverse) is Some,
    ensures
        table_has_id(table_after_update(tv, local_key, peer, traverse), peer.id@),
{
    let d = xor_bytes(local_key, peer.key@);
    let t = placement(tv, d, traverse)->0;
    let p = bit_string(d, t + 1);
    let after = table_after_update(tv, local_key, peer, traverse);
    if has_prefix(tv, p) {
        let i = prefix_position(tv, p);
        let e = entries_upsert(tv[i].1, peer);
        if has_key(tv[i].1, peer.id@) {
            lemma_key_position(tv[i].1, peer.id@);
        }
        assert(e[e.len() - 1].0 == peer.id@);
        assert(after[i].1 == e);
    } else {
        let n = tv.len() as int;
        assert(after[n].1 == seq![(peer.id@, peer)]);
        assert(after[n].1[0].0 == peer.id@);
    }
}

/// A new routing table knows the local peer.
pub proof fn lemma_new_table_knows_local(local: PeerInfo)
    ensures
        table_has_id(
            seq![(bit_string(xor_bytes(local.key@, local.key@), 1), seq![(local.id@, local)])],
            local.id@,
        ),
{
    let tv: TableView = seq![(bit_string(xor_bytes(local.key@, local.key@), 1), seq![(local.id@, local)])];
    assert(tv[0].1[0].0 == local.id@);
    assert(has_key(tv[0].1, local.id@));
}

proof fn lemma_bucket_peers_in_all(tv: TableView, i: int, x: PeerInfo)
    requires
        0 <= i < tv.len(),
        entry_peers(tv[i].1).contains(x),
    ensures
        all_peers(tv).contains(x),
    decreases tv.len(),
{
    let j = choose|j: int| 0 <= j < entry_peers(tv[i].1).len() && entry_peers(tv[i].1)[j] == x;
    if i == tv.len() - 1 {
        let a = all_peers(tv.drop_last());
        assert(all_peers(tv)[a.len() + j] == x);
    } else {
        assert(tv.drop_last()[i] == tv[i]);
        lemma_bucket_peers_in_all(tv.drop_last(), i, x);
        let k = choose|k: int| 0 <= k < all_peers(tv.drop_last()).len() && all_peers(tv.drop_last())[k] == x;
        assert(all_peers(tv)[k] == x);
    }
}

/// What `get_closest_peers` reports: at most `count` peers, each of them
/// held by the table; when the table holds more than `count` peers they are
/// ordered by XOR distance to the target, nearest first; and no peer of the
/// table that is left out is closer to the target than one reported.
pub proof fn lemma_closest_peers(tv: TableView, target: Seq<u8>, count: nat)
    requires
        target.len() == 32,
        forall|i: int| 0 <= i < all_peers(tv).len() ==> (#[trigger] all_peers(tv)[i]).key@.len() == 32,
    ensures
        closest_peers(tv, target, count).len() <= count,
        forall|x: PeerInfo| #[trigger] closest_peers(tv, target, count).contains(x) ==> all_peers(tv).contains(x),
        peer_count(tv) > count ==> sorted_by_distance(closest_peers(tv, target, count), target),
        forall|p: PeerInfo, q: PeerInfo|
            all_peers(tv).contains(p) && !closest_peers(tv, target, count).contains(p)
                && #[trigger] closest_peers(tv, target, count).contains(q) ==> key_le(
                dist_to(q, target),
                #[trigger] dist_to(p, target),
            ),
{
    lemma_all_peers_len(tv);
    let r = closest_peers(tv, target, count);
    let all = all_peers(tv);
    if peer_count(tv) > count {
        lemma_sort_by_distance(all, target);
        let sorted = sort_by_distance(all, target);
        assert(r =~= sorted.take(count as int));
        broadcast use vstd::seq_lib::group_to_multiset_ensures;

        assert forall|x: PeerInfo| #[trigger] r.contains(x) implies all.contains(x) by {
            let k = choose|k: int| 0 <= k < r.len() && r[k] == x;
            assert(sorted[k] == x);
            assert(sorted.contains(x));
            assert(sorted.to_multiset().count(x) > 0);
            assert(all.to_multiset().count(x) > 0);
        }
        assert forall|i: int, j: int| 0 <= i < j < r.len() implies key_le(
            dist_to(r[i], target),
            dist_to(r[j], target),
        ) by {
            assert(r[i] == sorted[i] && r[j] == sorted[j]);
        }
        assert forall|p: PeerInfo, q: PeerInfo|
            all.contains(p) && !r.contains(p) && #[trigger] r.contains(q) implies key_le(
            dist_to(q, target),
            #[trigger] dist_to(p, target),
        ) by {
            assert(all.to_multiset().count(p) > 0);
            assert(sorted.to_multiset().count(p) > 0);
            assert(sorted.contains(p));
            let j = choose|j: int| 0 <= j < sorted.len() && sorted[j] == p;
            if j < count {
                assert(r[j] == p);
            }
            let i = choose|i: int| 0 <= i < r.len() && r[i] == q;
            assert(sorted[i] == q);
        }
    } else {
        assert forall|x: PeerInfo| #[trigger] r.contains(x) implies all.contains(x) by {}
    }
}

} // verus!
