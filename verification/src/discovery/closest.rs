use vstd::prelude::*;
use crate::node::peer_info::PeerInfo;
use crate::node::peer_key::{Key, xor_bytes, key_lt, key_le, lemma_key_order};
use crate::utils::utils::Distance;

verus! {

/// The XOR distance of a peer's key to a target key.
pub open spec fn dist_to(p: PeerInfo, target: Seq<u8>) -> Seq<u8> {
    xor_bytes(p.key@, target)
}

/// Inserts `x` into `s` after every peer that is not farther from the
/// target than `x` (the step of a stable insertion sort).
pub open spec fn insert_by_distance(s: Seq<PeerInfo>, x: PeerInfo, target: Seq<u8>) -> Seq<PeerInfo>
    decreases s.len(),
{
    if s.len() == 0 {
        seq![x]
    } else if key_lt(dist_to(x, target), dist_to(s[0], target)) {
        seq![x] + s
    } else {
        seq![s[0]] + insert_by_distance(s.drop_first(), x, target)
    }
}

/// The peers ordered by XOR distance to the target, nearest first; peers at
/// the same distance keep their order (a stable sort).
pub open spec fn sort_by_distance(s: Seq<PeerInfo>, target: Seq<u8>) -> Seq<PeerInfo>
    decreases s.len(),
{
    if s.len() == 0 {
        Seq::empty()
    } else {
        insert_by_distance(sort_by_distance(s.drop_last(), target), s.last(), target)
    }
}

/// Whether the peers are ordered by XOR distance to the target, nearest first.
pub open spec fn sorted_by_distance(s: Seq<PeerInfo>, target: Seq<u8>) -> bool {
    forall|i: int, j: int|
        0 <= i < j < s.len() ==> key_le(dist_to(s[i], target), dist_to(s[j], target))
}

/// The position at which `insert_by_distance` places `x`: the first peer
/// strictly farther than `x`.
pub open spec fn first_farther(s: Seq<PeerInfo>, x: PeerInfo, target: Seq<u8>, from: nat) -> nat
    decreases s.len() - from,
{
    if from >= s.len() {
        s.len()
    } else if key_lt(dist_to(x, target), dist_to(s[from as int], target)) {
        from
    } else {
        first_farther(s, x, target, from + 1)
    }
}

proof fn lemma_first_farther_bounds(s: Seq<PeerInfo>, x: PeerInfo, target: Seq<u8>, from: nat)
    requires
        from <= s.len(),
    ensures
        from <= first_farther(s, x, target, from) <= s.len(),
        forall|j: int|
            from <= j < first_farther(s, x, target, from) ==> !key_lt(
                dist_to(x, target),
                dist_to(#[trigger] s[j], target),
            ),
        first_farther(s, x, target, from) < s.len() ==> key_lt(
            dist_to(x, target),
            dist_to(s[first_farther(s, x, target, from) as int], target),
        ),
    decreases s.len() - from,
{
    if from < s.len() && !key_lt(dist_to(x, target), dist_to(s[from as int], target)) {
        lemma_first_farther_bounds(s, x, target, from + 1);
    }
}

proof fn lemma_insert_at(s: Seq<PeerInfo>, x: PeerInfo, target: Seq<u8>)
    ensures
        insert_by_distance(s, x, target) == s.insert(first_farther(s, x, target, 0) as int, x),
    decreases s.len(),
{
    if s.len() == 0 {
        assert(s.insert(0, x) =~= seq![x]);
    } else if key_lt(dist_to(x, target), dist_to(s[0], target)) {
        assert(s.insert(0, x) =~= seq![x] + s);
    } else {
        let t = s.drop_first();
        lemma_insert_at(t, x, target);
        lemma_first_farther_shift(s, x, target, 1);
        lemma_first_farther_bounds(t, x, target, 0);
        assert(first_farther(s, x, target, 0) == first_farther(s, x, target, 1));
        assert(first_farther(s, x, target, 1) == first_farther(t, x, target, 0) + 1);
        assert(seq![s[0]] + t.insert(first_farther(t, x, target, 0) as int, x) =~= s.insert(
            first_farther(s, x, target, 0) as int,
            x,
        ));
    }
}

proof fn lemma_first_farther_shift(s: Seq<PeerInfo>, x: PeerInfo, target: Seq<u8>, from: nat)
    requires
        1 <= from <= s.len(),
    ensures
        first_farther(s, x, target, from) == first_farther(s.drop_first(), x, target, (from - 1) as nat)
            + 1,
    decreases s.len() - from,
{
    if from < s.len() {
        assert(s.drop_first()[from - 1] == s[from as int]);
        if !key_lt(dist_to(x, target), dist_to(s[from as int], target)) {
            lemma_first_farther_shift(s, x, target, from + 1);
        }
    }
}

proof fn lemma_insert_sorted(s: Seq<PeerInfo>, x: PeerInfo, target: Seq<u8>)
    requires
        sorted_by_distance(s, target),
        x.key@.len() == 32,
        target.len() == 32,
    ensures
        sorted_by_distance(insert_by_distance(s, x, target), target),
        insert_by_distance(s, x, target).to_multiset() == s.to_multiset().insert(x),
{
    lemma_insert_at(s, x, target);
    let p = first_farther(s, x, target, 0);
    lemma_first_farther_bounds(s, x, target, 0);
    let r = s.insert(p as int, x);
    assert forall|i: int, j: int| 0 <= i < j < r.len() implies key_le(
        dist_to(r[i], target),
        dist_to(r[j], target),
    ) by {
        let di = dist_to(r[i], target);
        let dj = dist_to(r[j], target);
        let dx = dist_to(x, target);
        assert(di.len() == 32 && dj.len() == 32 && dx.len() == 32) by {
            assert(xor_bytes(r[i].key@, target).len() == 32);
        }
        if i == p {
            assert(r[j] == s[j - 1]);
            let dp = dist_to(s[p as int], target);
            assert(key_lt(dx, dp));
            if j - 1 > p {
                assert(key_le(dp, dj));
                lemma_key_order(dj, dx, dp);
                lemma_key_order(dj, dp, dx);
            } else {
                lemma_key_order(dj, dx, dp);
            }
        } else if j == p {
            assert(r[i] == s[i]);
            assert(!key_lt(dx, di));
        } else {
            let ii = if i < p {
                i
            } else {
                i - 1
            };
            let jj = if j < p {
                j
            } else {
                j - 1
            };
            assert(r[i] == s[ii]);
            assert(r[j] == s[jj]);
        }
    }
    assert(r.to_multiset() == s.to_multiset().insert(x)) by {
        broadcast use vstd::seq_lib::group_to_multiset_ensures;
        broadcast use vstd::multiset::group_multiset_axioms;

        assert(r.remove(p as int) =~= s);
        assert(r[p as int] == x);
        assert(r.to_multiset().count(x) > 0) by {
            assert(r.contains(x));
            vstd::seq_lib::to_multiset_contains(r, x);
        }
        assert(r.to_multiset() =~= s.to_multiset().insert(x));
    }
}

/// Sorting by distance gives an ordering, nearest first, of the same peers.
pub proof fn lemma_sort_by_distance(s: Seq<PeerInfo>, target: Seq<u8>)
    requires
        target.len() == 32,
        forall|i: int| 0 <= i < s.len() ==> (#[trigger] s[i]).key@.len() == 32,
    ensures
        sorted_by_distance(sort_by_distance(s, target), target),
        sort_by_distance(s, target).to_multiset() == s.to_multiset(),
        sort_by_distance(s, target).len() == s.len(),
    decreases s.len(),
{
    if s.len() > 0 {
        lemma_sort_by_distance(s.drop_last(), target);
        lemma_insert_sorted(sort_by_distance(s.drop_last(), target), s.last(), target);
        broadcast use vstd::seq_lib::group_to_multiset_ensures;

        assert(s =~= s.drop_last().push(s.last()));
        assert(s.to_multiset() == s.drop_last().to_multiset().insert(s.last()));
    }
    broadcast use vstd::seq_lib::group_to_multiset_ensures;
    broadcast use vstd::multiset::group_multiset_axioms;

    assert(sort_by_distance(s, target).len() == sort_by_distance(s, target).to_multiset().len());
    assert(s.len() == s.to_multiset().len());
}

/// Sorts peers by XOR distance of their key to `target`, nearest first,
/// keeping the order of peers at the same distance.
pub fn sort_peers_by_distance(v: &Vec<PeerInfo>, target: &Key) -> (r: Vec<PeerInfo>)
    ensures
        r@ == sort_by_distance(v@, target@),
{
    let mut res: Vec<PeerInfo> = Vec::new();
    let mut i: usize = 0;
    while i < v.len()
        invariant
            i <= v@.len(),
            res@ == sort_by_distance(v@.take(i as int), target@),
        decreases v@.len() - i,
    {
        let x = v[i].clone();
        let dx = x.key.xor(*target);
        let mut j: usize = 0;
        let mut found = false;
        while !found && j < res.len()
            invariant
                j <= res@.len(),
                dx@ == dist_to(x, target@),
                found ==> first_farther(res@, x, target@, 0) == j,
                !found ==> first_farther(res@, x, target@, 0) == first_farther(
                    res@,
                    x,
                    target@,
                    j as nat,
                ),
            decreases res@.len() - j + (if found { 0int } else { 1int }),
        {
            let dj = res[j].key.xor(*target);
            if dx.less_than(&dj) {
                found = true;
            } else {
                j = j + 1;
            }
        }
        proof {
            lemma_insert_at(res@, x, target@);
            assert(v@.take(i + 1).drop_last() =~= v@.take(i as int));
            assert(v@.take(i + 1).last() == v@[i as int]);
        }
        res.insert(j, x);
        i = i + 1;
    }
    assert(v@.take(i as int) =~= v@);
    res
}

} // verus!
