use vstd::prelude::*;
use crate::node::address::Address;
use crate::protocol::protocol::{InnerKey, Packet, same_inner_key};

verus! {

/// Nanoseconds between maintenances of the outbox.
pub const MAINTENANCE: u128 = 300_000_000;

/// A packet flag asking the receiver for a return receipt.
pub const RETURN_RECEIPT: u8 = 1u8;

/// A packet flag asking for no return receipt.
pub const NO_RETURN_RECEIPT: u8 = 0u8;

/// Sends of a packet stop after this many attempts.
pub const MAX_ATTEMPTS: usize = 5;

/// A packet sent with a return receipt requested: the message id and packet
/// number it is filed under, the peers it was sent to, the peers that
/// acknowledged it, the packet and the number of attempts so far.
#[derive(Debug)]
pub struct OutboxEntry {
    pub id: InnerKey,
    pub n: usize,
    pub sent: Vec<Address>,
    pub acked: Vec<Address>,
    pub packet: Packet,
    pub attempts: usize,
}

/// What the outbox holds of an entry.
pub struct EntryView {
    pub id: Seq<u8>,
    pub n: usize,
    pub sent: Seq<Address>,
    pub acked: Seq<Address>,
    pub packet: Packet,
    pub attempts: usize,
}

impl OutboxEntry {
    /// The view of the entry.
    pub open spec fn view_entry(&self) -> EntryView {
        EntryView {
            id: self.id@,
            n: self.n,
            sent: self.sent@,
            acked: self.acked@,
            packet: self.packet,
            attempts: self.attempts,
        }
    }
}

/// The view of an outbox.
pub open spec fn outbox_view(o: Seq<OutboxEntry>) -> Seq<EntryView> {
    Seq::new(o.len(), |i: int| o[i].view_entry())
}

/// Adding an address to a list used as a set.
pub open spec fn set_insert(s: Seq<Address>, a: Address) -> Seq<Address> {
    if s.contains(a) {
        s
    } else {
        s.push(a)
    }
}

/// The addresses of `a` that are not in `b`, in order.
pub open spec fn difference(a: Seq<Address>, b: Seq<Address>) -> Seq<Address>
    decreases a.len(),
{
    if a.len() == 0 {
        Seq::empty()
    } else if b.contains(a.last()) {
        difference(a.drop_last(), b)
    } else {
        difference(a.drop_last(), b).push(a.last())
    }
}

/// Whether no address occurs twice.
pub open spec fn no_repeats(s: Seq<Address>) -> bool {
    forall|a: int, b: int| 0 <= a < b < s.len() ==> s[a] != s[b]
}

/// Whether an entry is still waiting: not every peer it was sent to (and
/// only those) acknowledged it, and it has had fewer than MAX_ATTEMPTS
/// attempts.
pub open spec fn waiting(e: EntryView) -> bool {
    e.sent.to_set() != e.acked.to_set() && e.attempts < MAX_ATTEMPTS
}

/// The outbox after a maintenance: the waiting entries, each with one more
/// attempt for every peer that has not acknowledged it.
pub open spec fn maintained(o: Seq<EntryView>) -> Seq<EntryView>
    decreases o.len(),
{
    if o.len() == 0 {
        Seq::empty()
    } else if waiting(o.last()) {
        let e = o.last();
        maintained(o.drop_last()).push(
            EntryView { attempts: (e.attempts + difference(e.sent, e.acked).len()) as usize, ..e },
        )
    } else {
        maintained(o.drop_last())
    }
}

/// The packets a maintenance sends again: for every waiting entry, its
/// packet to every peer that has not acknowledged it.
pub open spec fn resends(o: Seq<EntryView>) -> Seq<(Address, Packet)>
    decreases o.len(),
{
    if o.len() == 0 {
        Seq::empty()
    } else if waiting(o.last()) {
        let e = o.last();
        resends(o.drop_last()) + difference(e.sent, e.acked).map_values(|a: Address| (a, e.packet))
    } else {
        resends(o.drop_last())
    }
}

/// The position of the entry filed under a message id and packet number.
pub open spec fn entry_position(o: Seq<EntryView>, id: Seq<u8>, n: usize) -> int {
    choose|i: int| 0 <= i < o.len() && o[i].id == id && o[i].n == n
}

/// Whether an entry is filed under a message id and packet number.
pub open spec fn has_entry(o: Seq<EntryView>, id: Seq<u8>, n: usize) -> bool {
    exists|i: int| 0 <= i < o.len() && o[i].id == id && o[i].n == n
}

/// Whether some waiting entry of `o` other than the one at `skip` has the
/// message id and packet number `id`, `n`.
pub open spec fn waiting_entry_for(o: Seq<EntryView>, id: Seq<u8>, n: usize, skip: int) -> bool {
    exists|j: int| 0 <= j < o.len() && j != skip && waiting(o[j]) && o[j].id == id && o[j].n == n
}

/// Whether some waiting entry of `o` other than the one at `skip` has the
/// packet `p`.
pub open spec fn waiting_packet(o: Seq<EntryView>, p: Packet, skip: int) -> bool {
    exists|j: int| 0 <= j < o.len() && j != skip && waiting(o[j]) && o[j].packet == p
}

/// Every entry kept by a maintenance comes from a waiting entry with the
/// same message id and packet number.
proof fn lemma_maintained_from_waiting(o: Seq<EntryView>)
    ensures
        forall|k: int|
            0 <= k < maintained(o).len() ==> #[trigger] waiting_entry_for(
                o,
                maintained(o)[k].id,
                maintained(o)[k].n,
                -1,
            ),
    decreases o.len(),
{
    if o.len() > 0 {
        let d = o.drop_last();
        lemma_maintained_from_waiting(d);
        let m = maintained(o);
        assert forall|k: int| 0 <= k < m.len() implies #[trigger] waiting_entry_for(o, m[k].id, m[k].n, -1) by {
            if k < maintained(d).len() {
                assert(m[k] == maintained(d)[k]);
                assert(waiting_entry_for(d, maintained(d)[k].id, maintained(d)[k].n, -1));
                let j = choose|j: int|
                    0 <= j < d.len() && j != -1 && waiting(d[j]) && d[j].id == maintained(d)[k].id && d[j].n
                        == maintained(d)[k].n;
                assert(o[j] == d[j]);
            } else {
                let n = o.len() - 1;
                assert(waiting(o.last()));
                assert(o[n] == o.last());
                assert(m[k].id == o[n].id && m[k].n == o[n].n);
            }
        }
    }
}

/// Every packet a maintenance sends again is the packet of a waiting entry.
proof fn lemma_resends_from_waiting(o: Seq<EntryView>)
    ensures
        forall|k: int| 0 <= k < resends(o).len() ==> #[trigger] waiting_packet(o, resends(o)[k].1, -1),
    decreases o.len(),
{
    if o.len() > 0 {
        let d = o.drop_last();
        lemma_resends_from_waiting(d);
        let r = resends(o);
        assert forall|k: int| 0 <= k < r.len() implies #[trigger] waiting_packet(o, r[k].1, -1) by {
            if k < resends(d).len() {
                assert(r[k] == resends(d)[k]);
                assert(waiting_packet(d, resends(d)[k].1, -1));
                let j = choose|j: int| 0 <= j < d.len() && j != -1 && waiting(d[j]) && d[j].packet == resends(d)[k].1;
                assert(o[j] == d[j]);
            } else {
                let n = o.len() - 1;
                let e = o.last();
                assert(waiting(e));
                assert(o[n] == e);
                let tail = difference(e.sent, e.acked).map_values(|a: Address| (a, e.packet));
                assert(r == resends(d) + tail);
                assert(r[k] == tail[k - resends(d).len()]);
                assert(r[k].1 == e.packet);
            }
        }
    }
}

/// A packet that every peer it was sent to has acknowledged leaves the
/// outbox at the next maintenance, and nothing is sent again on its
/// account: every resend is the packet of another, still waiting entry.
pub proof fn lemma_acknowledged_dropped(o: Seq<EntryView>, i: int)
    requires
        forall|a: int, b: int| 0 <= a < b < o.len() ==> !(o[a].id == o[b].id && o[a].n == o[b].n),
        0 <= i < o.len(),
        o[i].sent.to_set() == o[i].acked.to_set(),
    ensures
        !has_entry(maintained(o), o[i].id, o[i].n),
        forall|k: int| 0 <= k < resends(o).len() ==> #[trigger] waiting_packet(o, resends(o)[k].1, i),
{
    lemma_maintained_from_waiting(o);
    lemma_resends_from_waiting(o);
    assert(!waiting(o[i]));
    let m = maintained(o);
    if has_entry(m, o[i].id, o[i].n) {
        let k = choose|k: int| 0 <= k < m.len() && m[k].id == o[i].id && m[k].n == o[i].n;
        assert(waiting_entry_for(o, m[k].id, m[k].n, -1));
        let j = choose|j: int| 0 <= j < o.len() && j != -1 && waiting(o[j]) && o[j].id == m[k].id && o[j].n == m[k].n;
        if j < i {
        } else if i < j {
        }
        assert(false);
    }
    assert forall|k: int| 0 <= k < resends(o).len() implies #[trigger] waiting_packet(o, resends(o)[k].1, i) by {
        assert(waiting_packet(o, resends(o)[k].1, -1));
        let j = choose|j: int| 0 <= j < o.len() && j != -1 && waiting(o[j]) && o[j].packet == resends(o)[k].1;
        assert(j != i);
    }
}

/// A pseudo-guaranteed delivery wrapper for UDP sockets: packets sent with a
/// return receipt requested stay in the outbox, filed under their message id
/// and packet number, until every peer they were sent to acknowledged them
/// or they have been sent MAX_ATTEMPTS times. The timer (ns) tells when the
/// outbox was last maintained. The socket itself is left to the caller.
#[derive(Debug)]
pub struct GDUdp {
    pub addr: Address,
    pub message_cache: Vec<InnerKey>,
    pub outbox: Vec<OutboxEntry>,
    pub timer: u128,
    pub log: String,
}

/// Whether the address is in the list.
fn list_contains(v: &Vec<Address>, a: Address) -> (r: bool)
    ensures
        r == v@.contains(a),
{
    let mut i: usize = 0;
    while i < v.len()
        invariant
            i <= v@.len(),
            forall|j: int| 0 <= j < i ==> v@[j] != a,
        decreases v@.len() - i,
    {
        if v[i] == a {
            assert(v@[i as int] == a);
            return true;
        }
        i = i + 1;
    }
    false
}

/// Whether two address lists hold the same addresses.
fn same_addresses(a: &Vec<Address>, b: &Vec<Address>) -> (r: bool)
    ensures
        r == (a@.to_set() == b@.to_set()),
{
    let mut i: usize = 0;
    while i < a.len()
        invariant
            i <= a@.len(),
            forall|j: int| 0 <= j < i ==> b@.contains(a@[j]),
        decreases a@.len() - i,
    {
        if !list_contains(b, a[i]) {
            assert(a@.to_set().contains(a@[i as int]));
            assert(!b@.to_set().contains(a@[i as int]));
            return false;
        }
        i = i + 1;
    }
    let mut j: usize = 0;
    while j < b.len()
        invariant
            j <= b@.len(),
            forall|k: int| 0 <= k < a@.len() ==> b@.contains(a@[k]),
            forall|k: int| 0 <= k < j ==> a@.contains(b@[k]),
        decreases b@.len() - j,
    {
        if !list_contains(a, b[j]) {
            assert(b@.to_set().contains(b@[j as int]));
            assert(!a@.to_set().contains(b@[j as int]));
            return false;
        }
        j = j + 1;
    }
    assert(a@.to_set() =~= b@.to_set()) by {
        assert forall|x: Address| a@.to_set().contains(x) implies b@.to_set().contains(x) by {
            let k = choose|k: int| 0 <= k < a@.len() && a@[k] == x;
        }
        assert forall|x: Address| b@.to_set().contains(x) implies a@.to_set().contains(x) by {
            let k = choose|k: int| 0 <= k < b@.len() && b@[k] == x;
        }
    }
    true
}

/// The addresses of `a` that are not in `b`, in order.
fn address_difference(a: &Vec<Address>, b: &Vec<Address>) -> (r: Vec<Address>)
    ensures
        r@ == difference(a@, b@),
{
    let mut ret: Vec<Address> = Vec::new();
    let mut i: usize = 0;
    while i < a.len()
        invariant
            i <= a@.len(),
            ret@ == difference(a@.take(i as int), b@),
        decreases a@.len() - i,
    {
        proof {
            assert(a@.take(i + 1).drop_last() =~= a@.take(i as int));
        }
        if !list_contains(b, a[i]) {
            ret.push(a[i]);
        }
        i = i + 1;
    }
    assert(a@.take(i as int) =~= a@);
    ret
}

/// A copy of an address list.
fn copy_addresses(a: &Vec<Address>) -> (r: Vec<Address>)
    ensures
        r@ == a@,
{
    let mut ret: Vec<Address> = Vec::new();
    let mut i: usize = 0;
    while i < a.len()
        invariant
            i <= a@.len(),
            ret@ == a@.take(i as int),
        decreases a@.len() - i,
    {
        ret.push(a[i]);
        i = i + 1;
        assert(ret@ =~= a@.take(i as int));
    }
    assert(a@.take(i as int) =~= a@);
    ret
}

proof fn lemma_difference_len(a: Seq<Address>, b: Seq<Address>)
    ensures
        difference(a, b).len() <= a.len(),
    decreases a.len(),
{
    if a.len() > 0 {
        lemma_difference_len(a.drop_last(), b);
    }
}

/// The peers left to hear from are exactly the peers sent to that have not
/// acknowledged: `x` is in `difference(a, b)` iff it is in `a` and not in
/// `b`.
pub proof fn lemma_difference_contains(a: Seq<Address>, b: Seq<Address>, x: Address)
    ensures
        difference(a, b).contains(x) <==> a.contains(x) && !b.contains(x),
    decreases a.len(),
{
    if a.len() > 0 {
        let d = a.drop_last();
        lemma_difference_contains(d, b, x);
        let r = difference(d, b);
        if a.contains(x) && !b.contains(x) {
            let k = choose|k: int| 0 <= k < a.len() && a[k] == x;
            if k < a.len() - 1 {
                assert(d[k] == x);
                assert(d.contains(x));
                let m = choose|m: int| 0 <= m < r.len() && r[m] == x;
                if b.contains(a.last()) {
                    assert(difference(a, b) == r);
                } else {
                    assert(difference(a, b) == r.push(a.last()));
                    assert(difference(a, b)[m] == r[m]);
                }
            } else {
                assert(difference(a, b) == r.push(a.last()));
                assert(difference(a, b)[r.len() as int] == x);
            }
        }
        if difference(a, b).contains(x) {
            let k = choose|k: int| 0 <= k < difference(a, b).len() && difference(a, b)[k] == x;
            if !b.contains(a.last()) && k == r.len() {
                assert(a[a.len() - 1] == x);
            } else {
                assert(difference(a, b)[k] == r[k]);
                assert(r.contains(x));
                let m = choose|m: int| 0 <= m < d.len() && d[m] == x;
                assert(a[m] == x);
            }
        }
    }
}

/// A maintenance sends the packet of every waiting entry again to every
/// peer it was sent to that has not acknowledged it.
pub proof fn lemma_maintain_resends_unacknowledged(o: Seq<EntryView>, i: int, x: Address)
    requires
        0 <= i < o.len(),
        waiting(o[i]),
        o[i].sent.contains(x),
        !o[i].acked.contains(x),
    ensures
        resends(o).contains((x, o[i].packet)),
    decreases o.len(),
{
    let d = o.drop_last();
    if i < o.len() - 1 {
        assert(d[i] == o[i]);
        lemma_maintain_resends_unacknowledged(d, i, x);
        let k = choose|k: int| 0 <= k < resends(d).len() && resends(d)[k] == (x, o[i].packet);
        if waiting(o.last()) {
            let e = o.last();
            let tail = difference(e.sent, e.acked).map_values(|a: Address| (a, e.packet));
            assert(resends(o) == resends(d) + tail);
            assert(resends(o)[k] == resends(d)[k]);
        } else {
            assert(resends(o) == resends(d));
        }
    } else {
        let e = o.last();
        assert(e == o[i]);
        lemma_difference_contains(e.sent, e.acked, x);
        let diff = difference(e.sent, e.acked);
        let m = choose|m: int| 0 <= m < diff.len() && diff[m] == x;
        let tail = diff.map_values(|a: Address| (a, e.packet));
        assert(resends(o) == resends(d) + tail);
        assert(resends(o)[resends(d).len() + m] == tail[m]);
        assert(tail[m] == (x, e.packet));
    }
}

impl GDUdp {
    /// The invariant: no two outbox entries are filed under the same message
    /// id and packet number; no entry lists a peer twice as sent to or as
    /// acknowledging; no message id is cached twice.
    pub open spec fn wf(&self) -> bool {
        &&& forall|i: int, j: int|
            0 <= i < j < self.outbox@.len() ==> !((#[trigger] self.outbox@[i]).id@ == (
            #[trigger] self.outbox@[j]).id@ && self.outbox@[i].n == self.outbox@[j].n)
        &&& forall|i: int|
            0 <= i < self.outbox@.len() ==> no_repeats((#[trigger] self.outbox@[i]).sent@) && no_repeats(
                self.outbox@[i].acked@,
            )
        &&& forall|i: int, j: int|
            0 <= i < j < self.message_cache@.len() ==> (#[trigger] self.message_cache@[i])@ != (
            #[trigger] self.message_cache@[j])@
    }

    /// Generates a new GDUDP instance given the local socket address and the
    /// time (ns) to count maintenances from.
    pub fn new(addr: Address, now: u128) -> (r: GDUdp)
        ensures
            r.wf(),
            r.addr == addr,
            r.message_cache@.len() == 0,
            r.outbox@.len() == 0,
            r.timer == now,
            r.log@ == "log.log"@,
    {
        proof {
            reveal_strlit("log.log");
        }
        GDUdp {
            addr,
            message_cache: Vec::new(),
            outbox: Vec::new(),
            timer: now,
            log: String::from_str("log.log"),
        }
    }

    /// Finds the entry filed under a message id and packet number.
    fn find_entry(&self, id: &InnerKey, n: usize) -> (r: Option<usize>)
        requires
            self.wf(),
        ensures
            match r {
                Some(i) => i < self.outbox@.len() && has_entry(outbox_view(self.outbox@), id@, n)
                    && entry_position(outbox_view(self.outbox@), id@, n) == i,
                None => !has_entry(outbox_view(self.outbox@), id@, n),
            },
    {
        let ghost o = outbox_view(self.outbox@);
        let mut i: usize = 0;
        while i < self.outbox.len()
            invariant
                i <= self.outbox@.len(),
                o == outbox_view(self.outbox@),
                self.wf(),
                forall|j: int| 0 <= j < i ==> !(o[j].id == id@ && o[j].n == n),
            decreases self.outbox@.len() - i,
        {
            if same_inner_key(&self.outbox[i].id, id) && self.outbox[i].n == n {
                proof {
                    assert(o[i as int].id == id@ && o[i as int].n == n);
                    let q = entry_position(o, id@, n);
                    if q != i {
                        if q < i {
                            assert(!(self.outbox@[q].id@ == self.outbox@[i as int].id@ && self.outbox@[q].n == self.outbox@[i as int].n));
                        } else {
                            assert(!(self.outbox@[i as int].id@ == self.outbox@[q].id@ && self.outbox@[i as int].n == self.outbox@[q].n));
                        }
                    }
                }
                return Some(i);
            }
            i = i + 1;
        }
        None
    }

    /// Files a send of `packet` to `peer` with a return receipt requested:
    /// the entry for the packet's message id and number gets the peer and
    /// one more attempt, or a new entry is made with this peer and one
    /// attempt. (Sending the bytes is left to the caller.)
    pub fn send_reliable(&mut self, peer: &Address, packet: &Packet)
        requires
            old(self).wf(),
            has_entry(outbox_view(old(self).outbox@), packet.id@, packet.n) ==> outbox_view(
                old(self).outbox@,
            )[entry_position(outbox_view(old(self).outbox@), packet.id@, packet.n)].attempts < usize::MAX,
        ensures
            final(self).wf(),
            final(self).addr == old(self).addr,
            final(self).timer == old(self).timer,
            final(self).message_cache == old(self).message_cache,
            final(self).log == old(self).log,
            ({
                let o = outbox_view(old(self).outbox@);
                if has_entry(o, packet.id@, packet.n) {
                    let i = entry_position(o, packet.id@, packet.n);
                    outbox_view(final(self).outbox@) == o.update(
                        i,
                        EntryView { sent: set_insert(o[i].sent, *peer), attempts: (o[i].attempts + 1) as usize, ..o[i] },
                    )
                } else {
                    outbox_view(final(self).outbox@) == o.push(
                        EntryView {
                            id: packet.id@,
                            n: packet.n,
                            sent: seq![*peer],
                            acked: Seq::empty(),
                            packet: *packet,
                            attempts: 1,
                        },
                    )
                }
            }),
    {
        let ghost o = outbox_view(self.outbox@);
        match self.find_entry(&packet.id, packet.n) {
            Some(i) => {
                let mut e = self.outbox.remove(i);
                if !list_contains(&e.sent, *peer) {
                    e.sent.push(*peer);
                }
                e.attempts = e.attempts + 1;
                self.outbox.insert(i, e);
                proof {
                    assert(outbox_view(self.outbox@) =~= o.update(
                        i as int,
                        EntryView { sent: set_insert(o[i as int].sent, *peer), attempts: (o[i as int].attempts + 1) as usize, ..o[i as int] },
                    ));
                    assert forall|a: int, b: int| 0 <= a < b < self.outbox@.len() implies !((#[trigger] self.outbox@[a]).id@ == (
                    #[trigger] self.outbox@[b]).id@ && self.outbox@[a].n == self.outbox@[b].n) by {
                        assert(self.outbox@[a].id@ == o[a].id && self.outbox@[a].n == o[a].n);
                        assert(self.outbox@[b].id@ == o[b].id && self.outbox@[b].n == o[b].n);
                        assert(old(self).outbox@[a].id@ == o[a].id && old(self).outbox@[b].id@ == o[b].id);
                    }
                }
            },
            None => {
                let mut sent: Vec<Address> = Vec::new();
                sent.push(*peer);
                let e = OutboxEntry {
                    id: packet.id,
                    n: packet.n,
                    sent,
                    acked: Vec::new(),
                    packet: packet.clone(),
                    attempts: 1,
                };
                self.outbox.push(e);
                proof {
                    assert(outbox_view(self.outbox@) =~= o.push(
                        EntryView {
                            id: packet.id@,
                            n: packet.n,
                            sent: seq![*peer],
                            acked: Seq::empty(),
                            packet: *packet,
                            attempts: 1,
                        },
                    ));
                    assert forall|a: int, b: int| 0 <= a < b < self.outbox@.len() implies !((#[trigger] self.outbox@[a]).id@ == (
                    #[trigger] self.outbox@[b]).id@ && self.outbox@[a].n == self.outbox@[b].n) by {
                        if b == self.outbox@.len() - 1 {
                            assert(o[a].id == self.outbox@[a].id@);
                        }
                    }
                }
            },
        }
    }

    /// Processes an acknowledgement of packet `packet_number` of message `id`
    /// by `src`: the entry filed under them, if any, records `src` as having
    /// acknowledged.
    pub fn process_ack(&mut self, id: InnerKey, packet_number: usize, src: Address)
        requires
            old(self).wf(),
        ensures
            final(self).wf(),
            final(self).addr == old(self).addr,
            final(self).timer == old(self).timer,
            final(self).message_cache == old(self).message_cache,
            final(self).log == old(self).log,
            ({
                let o = outbox_view(old(self).outbox@);
                if has_entry(o, id@, packet_number) {
                    let i = entry_position(o, id@, packet_number);
                    outbox_view(final(self).outbox@) == o.update(
                        i,
                        EntryView { acked: set_insert(o[i].acked, src), ..o[i] },
                    )
                } else {
                    outbox_view(final(self).outbox@) == o
                }
            }),
    {
        let ghost o = outbox_view(self.outbox@);
        match self.find_entry(&id, packet_number) {
            Some(i) => {
                let mut e = self.outbox.remove(i);
                if !list_contains(&e.acked, src) {
                    e.acked.push(src);
                }
                self.outbox.insert(i, e);
                proof {
                    assert(outbox_view(self.outbox@) =~= o.update(
                        i as int,
                        EntryView { acked: set_insert(o[i as int].acked, src), ..o[i as int] },
                    ));
                    assert forall|a: int, b: int| 0 <= a < b < self.outbox@.len() implies !((#[trigger] self.outbox@[a]).id@ == (
                    #[trigger] self.outbox@[b]).id@ && self.outbox@[a].n == self.outbox@[b].n) by {
                        assert(self.outbox@[a].id@ == o[a].id && self.outbox@[a].n == o[a].n);
                        assert(self.outbox@[b].id@ == o[b].id && self.outbox@[b].n == o[b].n);
                        assert(old(self).outbox@[a].id@ == o[a].id && old(self).outbox@[b].id@ == o[b].id);
                    }
                }
            },
            None => {},
        }
    }

    /// Maintains the outbox: entries that every peer acknowledged, or that had
    /// MAX_ATTEMPTS attempts, leave it; every other entry's packet is to be
    /// sent again to each peer that has not acknowledged it, one more attempt
    /// each. Returns those sends.
    pub fn maintain(&mut self) -> (r: Vec<(Address, Packet)>)
        requires
            old(self).wf(),
            forall|i: int| 0 <= i < old(self).outbox@.len() ==> (#[trigger] old(self).outbox@[i]).sent@.len() + MAX_ATTEMPTS <= usize::MAX,
        ensures
            final(self).wf(),
            final(self).addr == old(self).addr,
            final(self).timer == old(self).timer,
            final(self).message_cache == old(self).message_cache,
            final(self).log == old(self).log,
            outbox_view(final(self).outbox@) == maintained(outbox_view(old(self).outbox@)),
            r@ == resends(outbox_view(old(self).outbox@)),
    {
        let ghost o = outbox_view(self.outbox@);
        let ghost old_box = self.outbox@;
        let mut kept: Vec<OutboxEntry> = Vec::new();
        let mut sends: Vec<(Address, Packet)> = Vec::new();
        let ghost mut idx: Seq<int> = Seq::empty();
        let mut i: usize = 0;
        while i < self.outbox.len()
            invariant
                i <= self.outbox@.len(),
                self.outbox@ == old_box,
                o == outbox_view(old_box),
                forall|a: int| 0 <= a < old_box.len() ==> (#[trigger] old_box[a]).sent@.len() + MAX_ATTEMPTS <= usize::MAX,
                forall|a: int, b: int| 0 <= a < b < old_box.len() ==> !((#[trigger] old_box[a]).id@ == (
                #[trigger] old_box[b]).id@ && old_box[a].n == old_box[b].n),
                outbox_view(kept@) == maintained(o.take(i as int)),
                sends@ == resends(o.take(i as int)),
                idx.len() == kept@.len(),
                forall|a: int| 0 <= a < idx.len() ==> 0 <= #[trigger] idx[a] < i && kept@[a].id@ == old_box[idx[a]].id@ && kept@[a].n == old_box[idx[a]].n,
                forall|a: int| 0 <= a < idx.len() ==> kept@[a].sent@ == old_box[#[trigger] idx[a]].sent@ && kept@[a].acked@ == old_box[idx[a]].acked@,
                forall|a: int|
                    0 <= a < old_box.len() ==> no_repeats((#[trigger] old_box[a]).sent@) && no_repeats(
                        old_box[a].acked@,
                    ),
                forall|a: int, b: int| 0 <= a < b < idx.len() ==> #[trigger] idx[a] < #[trigger] idx[b],
            decreases self.outbox@.len() - i,
        {
            proof {
                assert(o.take(i + 1).drop_last() =~= o.take(i as int));
                assert(o.take(i + 1).last() == o[i as int]);
            }
            let waits = !same_addresses(&self.outbox[i].sent, &self.outbox[i].acked)
                && self.outbox[i].attempts < MAX_ATTEMPTS;
            if waits {
                let diff = address_difference(&self.outbox[i].sent, &self.outbox[i].acked);
                proof {
                    lemma_difference_len(old_box[i as int].sent@, old_box[i as int].acked@);
                }
                let ghost before = sends@;
                let mut k: usize = 0;
                while k < diff.len()
                    invariant
                        k <= diff@.len(),
                        self.outbox@ == old_box,
                        i < old_box.len(),
                        sends@ == before + diff@.take(k as int).map_values(|a: Address| (a, old_box[i as int].packet)),
                    decreases diff@.len() - k,
                {
                    sends.push((diff[k], self.outbox[i].packet.clone()));
                    k = k + 1;
                    assert(sends@ =~= before + diff@.take(k as int).map_values(|a: Address| (a, old_box[i as int].packet)));
                }
                assert(diff@.take(k as int) =~= diff@);
                let e = OutboxEntry {
                    id: self.outbox[i].id,
                    n: self.outbox[i].n,
                    sent: copy_addresses(&self.outbox[i].sent),
                    acked: copy_addresses(&self.outbox[i].acked),
                    packet: self.outbox[i].packet.clone(),
                    attempts: self.outbox[i].attempts + diff.len(),
                };
                let ghost kbefore = kept@;
                kept.push(e);
                proof {
                    assert(outbox_view(kept@) =~= outbox_view(kbefore).push(
                        EntryView { attempts: (o[i as int].attempts + difference(o[i as int].sent, o[i as int].acked).len()) as usize, ..o[i as int] },
                    ));
                    idx = idx.push(i as int);
                }
            }
            i = i + 1;
        }
        proof {
            assert(o.take(i as int) =~= o);
        }
        self.outbox = kept;
        proof {
            assert forall|a: int, b: int| 0 <= a < b < self.outbox@.len() implies !((#[trigger] self.outbox@[a]).id@ == (
            #[trigger] self.outbox@[b]).id@ && self.outbox@[a].n == self.outbox@[b].n) by {
                assert(idx[a] < idx[b]);
            }
            assert forall|a: int| 0 <= a < self.outbox@.len() implies no_repeats((#[trigger] self.outbox@[a]).sent@)
                && no_repeats(self.outbox@[a].acked@) by {
                assert(self.outbox@[a].sent@ == old_box[idx[a]].sent@);
            }
        }
        sends
    }

    /// Checks whether MAINTENANCE has passed at `now` since the last
    /// maintenance; if so the outbox is maintained, the timer set to `now`,
    /// and the sends of the maintenance returned. Otherwise nothing changes.
    pub fn check_time_elapsed(&mut self, now: u128) -> (r: Vec<(Address, Packet)>)
        requires
            old(self).wf(),
            forall|i: int| 0 <= i < old(self).outbox@.len() ==> (#[trigger] old(self).outbox@[i]).sent@.len() + MAX_ATTEMPTS <= usize::MAX,
        ensures
            final(self).wf(),
            final(self).addr == old(self).addr,
            final(self).message_cache == old(self).message_cache,
            final(self).log == old(self).log,
            ({
                let elapsed = if now > old(self).timer { now - old(self).timer } else { 0 };
                if elapsed >= MAINTENANCE {
                    &&& outbox_view(final(self).outbox@) == maintained(outbox_view(old(self).outbox@))
                    &&& r@ == resends(outbox_view(old(self).outbox@))
                    &&& final(self).timer == now
                } else {
                    &&& final(self).outbox == old(self).outbox
                    &&& r@.len() == 0
                    &&& final(self).timer == old(self).timer
                }
            }),
    {
        let elapsed: u128 = if now > self.timer {
            now - self.timer
        } else {
            0
        };
        if elapsed >= MAINTENANCE {
            let sends = self.maintain();
            self.timer = now;
            sends
        } else {
            Vec::new()
        }
    }
}

} // verus!
