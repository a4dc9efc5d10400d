use vstd::prelude::*;
use crate::gd_udp::gd_udp::RETURN_RECEIPT;
use crate::protocol::hex_text::{hex_decode, hex_decoding, is_hex_text};
use crate::protocol::protocol::{
    AckMessage, Header, InnerKey, Message, Packet, copy_bytes, decoded_concat, is_packetized,
    lemma_packetize_round_trip, same_inner_key,
};

verus! {

/// Where a reassembled message goes, by its header.
#[derive(Clone, Copy, Debug, PartialEq, Eq, Structural)]
pub enum Route {
    /// Requests and responses go to the kademlia instance.
    Kad,
    /// Acknowledgements go to the transport (or GDUDP) layer.
    Ack,
    /// Gossip goes to the gossip instance.
    Gossip,
    /// Anything else is dropped.
    Drop,
}

/// The packets received so far of one message, each filed under its number.
#[derive(Debug)]
pub struct PendingMessage {
    pub id: InnerKey,
    pub packets: Vec<Packet>,
}

/// Whether a packet with number `n` was received.
pub open spec fn has_number(ps: Seq<Packet>, n: int) -> bool {
    exists|i: int| 0 <= i < ps.len() && ps[i].n == n
}

/// The received packet with number `n`.
pub open spec fn packet_numbered(ps: Seq<Packet>, n: usize) -> Packet {
    ps[choose|i: int| 0 <= i < ps.len() && ps[i].n == n]
}

/// The message bytes reassembled from the packets numbered 1 to `total`:
/// their hex texts decoded and concatenated in order; `None` where a packet
/// is missing or a text is not hex.
pub open spec fn assembled(ps: Seq<Packet>, total: nat) -> Option<Seq<u8>> {
    if forall|k: int| 1 <= k <= total ==> #[trigger] has_number(ps, k) {
        decoded_concat(Seq::new(total, |k: int| packet_numbered(ps, (k + 1) as usize).bytes@))
    } else {
        None
    }
}

/// Filing a packet: it is added unless a packet with its number is there.
pub open spec fn file_packet(ps: Seq<Packet>, p: Packet) -> Seq<Packet> {
    if has_number(ps, p.n as int) {
        ps
    } else {
        ps.push(p)
    }
}

/// What the pending table holds of a message: its id and its packets.
pub open spec fn pending_view(v: Seq<PendingMessage>) -> Seq<(Seq<u8>, Seq<Packet>)> {
    Seq::new(v.len(), |i: int| (v[i].id@, v[i].packets@))
}

/// Whether a message id has packets pending.
pub open spec fn has_pending(v: Seq<(Seq<u8>, Seq<Packet>)>, id: Seq<u8>) -> bool {
    exists|i: int| 0 <= i < v.len() && v[i].0 == id
}

/// The position of a message id in the pending table.
pub open spec fn pending_position(v: Seq<(Seq<u8>, Seq<Packet>)>, id: Seq<u8>) -> int {
    choose|i: int| 0 <= i < v.len() && v[i].0 == id
}

/// Whether no two packets share a number.
pub open spec fn numbers_distinct(ps: Seq<Packet>) -> bool {
    forall|a: int, b: int| 0 <= a < b < ps.len() ==> (#[trigger] ps[a]).n != (#[trigger] ps[b]).n
}

/// The core of the message handler: the pending table of packets of
/// messages not yet reassembled. Reading from the socket and sending to the
/// other components are left to the caller.
#[derive(Debug)]
pub struct MessageHandler {
    pub pending: Vec<PendingMessage>,
}

proof fn lemma_decoded_concat_none(t: Seq<Seq<char>>, k: int)
    requires
        0 <= k <= t.len(),
        decoded_concat(t.take(k)) is None,
    ensures
        decoded_concat(t) is None,
    decreases t.len() - k,
{
    if k < t.len() {
        assert(t.take(k + 1).drop_last() =~= t.take(k));
        lemma_decoded_concat_none(t, k + 1);
    } else {
        assert(t.take(k) =~= t);
    }
}

impl MessageHandler {
    /// The handler's invariant: no message id twice, and within a message no
    /// packet number twice.
    pub open spec fn wf(&self) -> bool {
        &&& forall|a: int, b: int|
            0 <= a < b < self.pending@.len() ==> (#[trigger] self.pending@[a]).id@ != (
            #[trigger] self.pending@[b]).id@
        &&& forall|a: int| 0 <= a < self.pending@.len() ==> numbers_distinct((#[trigger] self.pending@[a]).packets@)
    }

    /// Creates a new message handler with the given pending table.
    pub fn new(pending: Vec<PendingMessage>) -> (r: MessageHandler)
        ensures
            r.pending == pending,
    {
        MessageHandler { pending }
    }

    /// Checks the handler's invariant: no message id twice in the pending
    /// table, and within a message no packet number twice.
    pub fn is_wf(&self) -> (r: bool)
        ensures
            r == self.wf(),
    {
        let mut a: usize = 0;
        while a < self.pending.len()
            invariant
                a <= self.pending@.len(),
                forall|x: int, y: int|
                    0 <= x < a && x < y < self.pending@.len() ==> (#[trigger] self.pending@[x]).id@ != (
                    #[trigger] self.pending@[y]).id@,
                forall|x: int| 0 <= x < a ==> numbers_distinct((#[trigger] self.pending@[x]).packets@),
            decreases self.pending@.len() - a,
        {
            let mut b: usize = a + 1;
            while b < self.pending.len()
                invariant
                    a < self.pending@.len(),
                    a < b <= self.pending@.len(),
                    forall|y: int| a < y < b ==> self.pending@[a as int].id@ != (#[trigger] self.pending@[y]).id@,
                decreases self.pending@.len() - b,
            {
                if same_inner_key(&self.pending[a].id, &self.pending[b].id) {
                    assert(self.pending@[a as int].id@ == self.pending@[b as int].id@);
                    return false;
                }
                b = b + 1;
            }
            let ps = &self.pending[a].packets;
            let mut i: usize = 0;
            while i < ps.len()
                invariant
                    a < self.pending@.len(),
                    ps@ == self.pending@[a as int].packets@,
                    i <= ps@.len(),
                    forall|x: int, y: int| 0 <= x < i && x < y < ps@.len() ==> (#[trigger] ps@[x]).n != (#[trigger] ps@[y]).n,
                decreases ps@.len() - i,
            {
                let mut j: usize = i + 1;
                while j < ps.len()
                    invariant
                        a < self.pending@.len(),
                        ps@ == self.pending@[a as int].packets@,
                        i < ps@.len(),
                        i < j <= ps@.len(),
                        forall|y: int| i < y < j ==> ps@[i as int].n != (#[trigger] ps@[y]).n,
                    decreases ps@.len() - j,
                {
                    if ps[i].n == ps[j].n {
                        assert(!numbers_distinct(self.pending@[a as int].packets@)) by {
                            assert(ps@ == self.pending@[a as int].packets@);
                            assert(ps@[i as int].n == ps@[j as int].n);
                        }
                        return false;
                    }
                    j = j + 1;
                }
                i = i + 1;
            }
            assert(numbers_distinct(self.pending@[a as int].packets@));
            a = a + 1;
        }
        true
    }

    /// Decides the acknowledgement of a received packet: one is owed, from
    /// the local address (given as its text's bytes), when the packet asks
    /// for a return receipt.
    pub fn process_packet(&self, local: &Vec<u8>, packet: &Packet) -> (r: Option<AckMessage>)
        ensures
            packet.ret == RETURN_RECEIPT ==> r is Some && r->0.packet_id == packet.id
                && r->0.packet_number == packet.n && r->0.src@ == local@,
            packet.ret != RETURN_RECEIPT ==> r is None,
    {
        if packet.ret == RETURN_RECEIPT {
            Some(AckMessage { packet_id: packet.id, packet_number: packet.n, src: copy_bytes(local.as_slice()) })
        } else {
            None
        }
    }

    /// Finds the packet with number `n`.
    fn find_numbered(ps: &Vec<Packet>, n: usize) -> (r: Option<usize>)
        ensures
            match r {
                Some(i) => i < ps@.len() && ps@[i as int].n == n,
                None => !has_number(ps@, n as int),
            },
    {
        let mut i: usize = 0;
        while i < ps.len()
            invariant
                i <= ps@.len(),
                forall|j: int| 0 <= j < i ==> ps@[j].n != n,
            decreases ps@.len() - i,
        {
            if ps[i].n == n {
                return Some(i);
            }
            i = i + 1;
        }
        None
    }

    /// Assembles the packets numbered 1 to `total` into the message bytes.
    fn assemble_packets(total: usize, ps: &Vec<Packet>) -> (r: Option<Vec<u8>>)
        requires
            numbers_distinct(ps@),
        ensures
            match r {
                Some(v) => assembled(ps@, total as nat) == Some(v@),
                None => assembled(ps@, total as nat) is None,
            },
    {
        let ghost texts = Seq::new(total as nat, |k: int| packet_numbered(ps@, (k + 1) as usize).bytes@);
        let mut bytes: Vec<u8> = Vec::new();
        let mut k: usize = 0;
        while k < total
            invariant
                k <= total,
                numbers_distinct(ps@),
                texts == Seq::new(total as nat, |k: int| packet_numbered(ps@, (k + 1) as usize).bytes@),
                forall|j: int| 1 <= j <= k ==> #[trigger] has_number(ps@, j),
                decoded_concat(texts.take(k as int)) == Some(bytes@),
            decreases total - k,
        {
            let n: usize = k + 1;
            match Self::find_numbered(ps, n) {
                None => {
                    return None;
                },
                Some(i) => {
                    proof {
                        assert(has_number(ps@, n as int));
                        let j = choose|j: int| 0 <= j < ps@.len() && ps@[j].n == n;
                        if j != i {
                            if j < i {
                                assert(ps@[j].n != ps@[i as int].n);
                            } else {
                                assert(ps@[i as int].n != ps@[j].n);
                            }
                        }
                        assert(texts[k as int] == ps@[i as int].bytes@);
                        assert(texts.take(n as int).drop_last() =~= texts.take(k as int));
                    }
                    match hex_decode(ps[i].bytes.as_str()) {
                        None => {
                            proof {
                                lemma_decoded_concat_none(texts, n as int);
                            }
                            return None;
                        },
                        Some(mut part) => {
                            bytes.append(&mut part);
                        },
                    }
                },
            }
            k = k + 1;
        }
        assert(texts.take(total as int) =~= texts);
        Some(bytes)
    }

    /// Inserts a packet into the pending table. A packet of a single-packet
    /// message that is not pending is decoded at once. Otherwise the packet is
    /// filed under its message (unless its number is already there), and when
    /// the message then has `total_n` packets they are assembled. Gives the
    /// reassembled message bytes, if any. Where a packet is missing or a text
    /// is not hex, nothing is reassembled.
    pub fn insert_packet(&mut self, packet: Packet) -> (r: Option<Vec<u8>>)
        requires
            old(self).wf(),
        ensures
            final(self).wf(),
            ({
                let v = pending_view(old(self).pending@);
                if has_pending(v, packet.id@) {
                    let i = pending_position(v, packet.id@);
                    let ps = file_packet(v[i].1, packet);
                    &&& pending_view(final(self).pending@) == v.update(i, (packet.id@, ps))
                    &&& ps.len() == packet.total_n ==> match r {
                        Some(b) => assembled(ps, packet.total_n as nat) == Some(b@),
                        None => assembled(ps, packet.total_n as nat) is None,
                    }
                    &&& ps.len() != packet.total_n ==> r is None
                } else if packet.total_n == 1 {
                    &&& pending_view(final(self).pending@) == v
                    &&& match r {
                        Some(b) => is_hex_text(packet.bytes@) && b@ == hex_decoding(packet.bytes@),
                        None => !is_hex_text(packet.bytes@),
                    }
                } else {
                    &&& pending_view(final(self).pending@) == v.push((packet.id@, seq![packet]))
                    &&& r is None
                }
            }),
    {
        let ghost v = pending_view(self.pending@);
        let mut pos: Option<usize> = None;
        let mut i: usize = 0;
        while i < self.pending.len()
            invariant
                i <= self.pending@.len(),
                v == pending_view(self.pending@),
                self.wf(),
                pos is None ==> forall|j: int| 0 <= j < i ==> self.pending@[j].id@ != packet.id@,
                pos matches Some(p) ==> p < self.pending@.len() && self.pending@[p as int].id@ == packet.id@,
            decreases self.pending@.len() - i,
        {
            if pos.is_none() && same_inner_key(&self.pending[i].id, &packet.id) {
                pos = Some(i);
            }
            i = i + 1;
        }
        match pos {
            Some(p) => {
                proof {
                    let q = pending_position(v, packet.id@);
                    assert(v[p as int].0 == packet.id@);
                    if q != p {
                        if q < p {
                            assert(self.pending@[q].id@ != self.pending@[p as int].id@);
                        } else {
                            assert(self.pending@[p as int].id@ != self.pending@[q].id@);
                        }
                    }
                }
                let mut entry = self.pending.remove(p);
                let ghost ps0 = entry.packets@;
                let total = packet.total_n;
                match Self::find_numbered(&entry.packets, packet.n) {
                    Some(_) => {},
                    None => {
                        entry.packets.push(packet);
                        proof {
                            assert forall|a: int, b: int| 0 <= a < b < entry.packets@.len() implies (
                            #[trigger] entry.packets@[a]).n != (#[trigger] entry.packets@[b]).n by {
                                if b == entry.packets@.len() - 1 {
                                    assert(entry.packets@[a] == ps0[a]);
                                }
                            }
                        }
                    },
                }
                let r = if entry.packets.len() == total {
                    Self::assemble_packets(total, &entry.packets)
                } else {
                    None
                };
                self.pending.insert(p, entry);
                proof {
                    assert(pending_view(self.pending@) =~= v.update(p as int, (packet.id@, entry.packets@)));
                    assert forall|a: int, b: int| 0 <= a < b < self.pending@.len() implies (
                    #[trigger] self.pending@[a]).id@ != (#[trigger] self.pending@[b]).id@ by {
                        assert(self.pending@[a].id@ == v[a].0);
                        assert(self.pending@[b].id@ == v[b].0);
                        assert(old(self).pending@[a].id@ == v[a].0 && old(self).pending@[b].id@ == v[b].0);
                    }
                    assert forall|a: int| 0 <= a < self.pending@.len() implies numbers_distinct(
                        (#[trigger] self.pending@[a]).packets@,
                    ) by {
                        if a != p {
                            assert(self.pending@[a] == old(self).pending@[a]);
                        }
                    }
                }
                r
            },
            None => {
                proof {
                    assert forall|j: int| 0 <= j < v.len() implies v[j].0 != packet.id@ by {
                        assert(v[j].0 == self.pending@[j].id@);
                    }
                }
                if packet.total_n == 1 {
                    hex_decode(packet.bytes.as_str())
                } else {
                    let id = packet.id;
                    let mut packets: Vec<Packet> = Vec::new();
                    packets.push(packet);
                    self.pending.push(PendingMessage { id, packets });
                    proof {
                        assert(pending_view(self.pending@) =~= v.push((packet.id@, seq![packet])));
                        assert forall|a: int, b: int| 0 <= a < b < self.pending@.len() implies (
                        #[trigger] self.pending@[a]).id@ != (#[trigger] self.pending@[b]).id@ by {
                            if b == self.pending@.len() - 1 {
                                assert(self.pending@[a].id@ == v[a].0);
                            }
                        }
                    }
                    None
                }
            },
        }
    }

    /// Routes a reassembled message to the proper component by its header.
    pub fn handle_message(&self, message: &Message) -> (r: Route)
        ensures
            r == match message.head {
                Header::Request | Header::Response => Route::Kad,
                Header::Ack => Route::Ack,
                Header::Gossip => Route::Gossip,
                Header::RaptorQGossip => Route::Drop,
            },
    {
        match message.head {
            Header::Request | Header::Response => Route::Kad,
            Header::Ack => Route::Ack,
            Header::Gossip => Route::Gossip,
            _ => Route::Drop,
        }
    }
}

/// A message's packets, received in any order, reassemble into the message:
/// whenever the packets that `packetize` made of `data` are exactly the
/// packets filed (each number once), assembling them gives `data`.
pub proof fn lemma_reassembly(
    filed: Seq<Packet>,
    made: Seq<Packet>,
    data: Seq<u8>,
    id: InnerKey,
    ret: u8,
    flag: bool,
)
    requires
        is_packetized(made, data, id, ret, flag),
        forall|i: int| 0 <= i < made.len() ==> filed.contains(#[trigger] made[i]),
        forall|i: int| 0 <= i < filed.len() ==> made.contains(#[trigger] filed[i]),
    ensures
        assembled(filed, made.len()) == Some(data),
{
    let total = made.len();
    assert forall|k: int| 1 <= k <= total implies #[trigger] has_number(filed, k) by {
        assert(made[k - 1].n == k);
        assert(filed.contains(made[k - 1]));
    }
    let texts = Seq::new(total, |k: int| packet_numbered(filed, (k + 1) as usize).bytes@);
    assert forall|k: int| 0 <= k < total implies texts[k] == made[k].bytes@ by {
        assert(has_number(filed, k + 1));
        let j = choose|j: int| 0 <= j < filed.len() && filed[j].n == (k + 1) as usize;
        assert(made.contains(filed[j]));
        let m = choose|m: int| 0 <= m < made.len() && made[m] == filed[j];
        assert(made[m].n == m + 1);
    }
    lemma_packetize_round_trip(made, data, id, ret, flag);
    assert(texts =~= Seq::new(made.len(), |i: int| made[i].bytes@));
}


/// The packets of `made` filed by the first `j` insertions when they arrive
/// in the order `order` (positions in `made`).
pub open spec fn filed_in_order(made: Seq<Packet>, order: Seq<int>, j: int) -> Seq<Packet> {
    Seq::new(j as nat, |k: int| made[order[k]])
}

/// Inserting a message's packets one at a time, each once, in any order,
/// hands the message on exactly once, at the last packet. A message of one
/// packet is decoded at once into the data. Otherwise the first packet
/// opens the message's entry with itself; each later one is filed beside
/// those before (its number is new), so after `j` insertions `j` packets
/// are filed: fewer than `total_n` until the last, when they assemble into
/// the data (see `insert_packet`).
pub proof fn lemma_dispatch_once(
    made: Seq<Packet>,
    data: Seq<u8>,
    id: InnerKey,
    ret: u8,
    flag: bool,
    order: Seq<int>,
)
    requires
        is_packetized(made, data, id, ret, flag),
        order.len() == made.len(),
        forall|k: int| 0 <= k < order.len() ==> 0 <= #[trigger] order[k] < made.len(),
        forall|a: int, b: int| 0 <= a < b < order.len() ==> #[trigger] order[a] != #[trigger] order[b],
        forall|i: int| 0 <= i < made.len() ==> #[trigger] order.contains(i),
    ensures
        forall|i: int| 0 <= i < made.len() ==> (#[trigger] made[i]).total_n == made.len() && made[i].id == id,
        made.len() == 1 ==> is_hex_text(made[0].bytes@) && hex_decoding(made[0].bytes@) == data,
        made.len() > 1 ==> filed_in_order(made, order, 1) == seq![made[order[0]]],
        forall|j: int|
            1 <= j < made.len() ==> #[trigger] file_packet(filed_in_order(made, order, j), made[order[j]])
                == filed_in_order(made, order, j + 1),
        forall|j: int| 0 <= j <= made.len() ==> (#[trigger] filed_in_order(made, order, j)).len() == j,
        assembled(filed_in_order(made, order, made.len() as int), made.len()) == Some(data),
{
    let k = made.len();
    lemma_packetize_round_trip(made, data, id, ret, flag);
    if k == 1 {
        let texts = Seq::new(1, |i: int| made[i].bytes@);
        assert(texts.drop_last() =~= Seq::<Seq<char>>::empty());
        assert(texts.last() == made[0].bytes@);
        assert(Seq::<u8>::empty() + hex_decoding(made[0].bytes@) =~= hex_decoding(made[0].bytes@));
    }
    if k > 1 {
        assert(filed_in_order(made, order, 1) =~= seq![made[order[0]]]);
    }
    assert forall|j: int| 1 <= j < made.len() implies #[trigger] file_packet(filed_in_order(made, order, j), made[order[j]])
        == filed_in_order(made, order, j + 1) by {
        let ps = filed_in_order(made, order, j);
        let p = made[order[j]];
        if has_number(ps, p.n as int) {
            let q = choose|q: int| 0 <= q < ps.len() && ps[q].n == p.n;
            assert(ps[q] == made[order[q]]);
            assert(made[order[q]].n == order[q] + 1);
            assert(p.n == order[j] + 1);
            assert(false);
        }
        assert(ps.push(p) =~= filed_in_order(made, order, j + 1));
    }
    let filed = filed_in_order(made, order, k as int);
    assert forall|i: int| 0 <= i < made.len() implies filed.contains(#[trigger] made[i]) by {
        assert(order.contains(i));
        let q = choose|q: int| 0 <= q < order.len() && order[q] == i;
        assert(filed[q] == made[i]);
    }
    assert forall|i: int| 0 <= i < filed.len() implies made.contains(#[trigger] filed[i]) by {
        assert(filed[i] == made[order[i]]);
    }
    lemma_reassembly(filed, made, data, id, ret, flag);
}

} // verus!
