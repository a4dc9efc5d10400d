use vstd::prelude::*;
use ritelinked::LinkedHashMap;
use crate::node::peer_id::PeerId;
use crate::node::peer_info::PeerInfo;
use crate::discovery::MAX_BUCKET_LEN;

verus! {

#[verifier::external_type_specification]
#[verifier::external_body]
#[verifier::reject_recursive_types(K)]
#[verifier::reject_recursive_types(V)]
#[verifier::reject_recursive_types(S)]
pub struct ExLinkedHashMap<K, V, S>(LinkedHashMap<K, V, S>);

#[verifier::external_type_specification]
#[verifier::external_body]
pub struct ExDefaultHashBuilder(ritelinked::DefaultHashBuilder);

/// What a bucket's linked hash map holds, front (least recently inserted)
/// first: each entry as its key's text and its value.
pub uninterp spec fn bucket_entries(m: LinkedHashMap<PeerId, PeerInfo>) -> Seq<(Seq<char>, PeerInfo)>;

/// Whether some entry has the key text `k`.
pub open spec fn has_key(s: Seq<(Seq<char>, PeerInfo)>, k: Seq<char>) -> bool {
    exists|i: int| 0 <= i < s.len() && s[i].0 == k
}

/// The position of the entry with key text `k` (the first one, if several).
pub open spec fn key_position(s: Seq<(Seq<char>, PeerInfo)>, k: Seq<char>) -> int {
    choose|i: int| 0 <= i < s.len() && s[i].0 == k && forall|j: int| 0 <= j < i ==> s[j].0 != k
}

/// Inserting `v` under `k` at the back: an entry with the same key moves to
/// the back and takes the new value; otherwise a new entry is added there.
pub open spec fn entries_insert(s: Seq<(Seq<char>, PeerInfo)>, k: Seq<char>, v: PeerInfo) -> Seq<
    (Seq<char>, PeerInfo),
> {
    if has_key(s, k) {
        s.remove(key_position(s, k)).push((k, v))
    } else {
        s.push((k, v))
    }
}

/// Removing the entry with key `k`, if there is one.
pub open spec fn entries_remove(s: Seq<(Seq<char>, PeerInfo)>, k: Seq<char>) -> Seq<
    (Seq<char>, PeerInfo),
> {
    if has_key(s, k) {
        s.remove(key_position(s, k))
    } else {
        s
    }
}

/// There is a first position holding key `k` whenever `k` occurs.
pub proof fn lemma_key_position(s: Seq<(Seq<char>, PeerInfo)>, k: Seq<char>)
    requires
        has_key(s, k),
    ensures
        0 <= key_position(s, k) < s.len(),
        s[key_position(s, k)].0 == k,
        forall|j: int| 0 <= j < key_position(s, k) ==> s[j].0 != k,
{
    let i = choose|i: int| 0 <= i < s.len() && s[i].0 == k;
    lemma_first_position(s, k, i);
}

proof fn lemma_first_position(s: Seq<(Seq<char>, PeerInfo)>, k: Seq<char>, i: int)
    requires
        0 <= i < s.len(),
        s[i].0 == k,
    ensures
        exists|m: int| 0 <= m < s.len() && s[m].0 == k && forall|j: int| 0 <= j < m ==> s[j].0 != k,
    decreases i,
{
    if exists|j: int| 0 <= j < i && s[j].0 == k {
        let j = choose|j: int| 0 <= j < i && s[j].0 == k;
        lemma_first_position(s, k, j);
    } else {
        assert(forall|j: int| 0 <= j < i ==> s[j].0 != k);
    }
}

/// Calls `LinkedHashMap::with_capacity`; the new map is empty. The table
/// underneath panics on a capacity whose size overflows, so the capacity is
/// kept to a bucket's.
#[verifier::external_body]
pub(crate) fn map_with_capacity(capacity: usize) -> (m: LinkedHashMap<PeerId, PeerInfo>)
    requires
        capacity <= MAX_BUCKET_LEN,
    ensures
        bucket_entries(m) == Seq::<(Seq<char>, PeerInfo)>::empty(),
{
    LinkedHashMap::with_capacity(capacity)
}

/// Calls `LinkedHashMap::insert`. The map finds an entry by the key's hash
/// and equality, both of which go by the id's text; an existing entry is
/// moved to the back and given the new value, else the pair is added at the
/// back.
#[verifier::external_body]
pub(crate) fn map_insert(m: &mut LinkedHashMap<PeerId, PeerInfo>, k: PeerId, v: PeerInfo)
    ensures
        bucket_entries(*final(m)) == entries_insert(bucket_entries(*old(m)), k@, v),
{
    m.insert(k, v);
}

/// Calls `LinkedHashMap::contains_key`: whether an entry has the id's text.
#[verifier::external_body]
pub(crate) fn map_contains_key(m: &LinkedHashMap<PeerId, PeerInfo>, k: &PeerId) -> (r: bool)
    ensures
        r == has_key(bucket_entries(*m), k@),
{
    m.contains_key(k)
}

/// Calls `LinkedHashMap::remove`: takes out the entry with the id's text and
/// gives its value, or gives `None` and leaves the map as it was.
#[verifier::external_body]
pub(crate) fn map_remove(m: &mut LinkedHashMap<PeerId, PeerInfo>, k: &PeerId) -> (r: Option<PeerInfo>)
    ensures
        bucket_entries(*final(m)) == entries_remove(bucket_entries(*old(m)), k@),
        match r {
            Some(v) => has_key(bucket_entries(*old(m)), k@) && v == bucket_entries(*old(m))[key_position(
                bucket_entries(*old(m)),
                k@,
            )].1,
            None => !has_key(bucket_entries(*old(m)), k@),
        },
{
    m.remove(k)
}

/// Calls `LinkedHashMap::pop_front`: takes out the front entry, or gives
/// `None` on an empty map.
#[verifier::external_body]
pub(crate) fn map_pop_front(m: &mut LinkedHashMap<PeerId, PeerInfo>) -> (r: Option<(PeerId, PeerInfo)>)
    ensures
        match r {
            Some(kv) => {
                &&& bucket_entries(*old(m)).len() > 0
                &&& kv.0@ == bucket_entries(*old(m))[0].0
                &&& kv.1 == bucket_entries(*old(m))[0].1
                &&& bucket_entries(*final(m)) == bucket_entries(*old(m)).drop_first()
            },
            None => bucket_entries(*old(m)).len() == 0 && bucket_entries(*final(m)) == bucket_entries(
                *old(m),
            ),
        },
{
    m.pop_front()
}

/// Calls `LinkedHashMap::len`: the number of entries.
#[verifier::external_body]
pub(crate) fn map_len(m: &LinkedHashMap<PeerId, PeerInfo>) -> (r: usize)
    ensures
        r == bucket_entries(*m).len(),
{
    m.len()
}

/// Calls `LinkedHashMap::values` and clones each value into a vector, front
/// first.
#[verifier::external_body]
pub(crate) fn map_values(m: &LinkedHashMap<PeerId, PeerInfo>) -> (r: Vec<PeerInfo>)
    ensures
        r@ == bucket_entries(*m).map_values(|e: (Seq<char>, PeerInfo)| e.1),
{
    m.values().cloned().collect()
}

/// Calls `LinkedHashMap::clone`, which keeps the entries and their order.
#[verifier::external_body]
pub(crate) fn map_clone(m: &LinkedHashMap<PeerId, PeerInfo>) -> (r: LinkedHashMap<PeerId, PeerInfo>)
    ensures
        bucket_entries(r) == bucket_entries(*m),
{
    m.clone()
}

} // verus!
