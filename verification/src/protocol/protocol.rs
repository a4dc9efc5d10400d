use vstd::prelude::*;
use crate::protocol::hex_text::{hex_encode, hex_encoding, hex_decoding, is_hex_text, lemma_hex_round_trip};
use crate::utils::random::random_bytes_32;
use crate::utils::utils::ByteRep;
use crate::node::peer_key::{force_leading_zeros, in_range_shape};

verus! {

/// There are many instances where a byte representation of a given struct
/// or enum is passed through a function or used for something. To make it
/// easier to distinguish what the byte vector is intending to represent,
/// these aliases are used instead of a bare Vec<u8>.
pub type Peer = Vec<u8>;

pub type RequestBytes = Vec<u8>;

pub type ResponseBytes = Vec<u8>;

pub type Value = Vec<u8>;

pub type Nodes = Vec<Vec<u8>>;

pub type StoreKey = [u8; 32];

pub type InnerKey = [u8; 32];

pub type RPCBytes = Vec<u8>;

pub type MessageData = Vec<u8>;

pub type ReturnReceipt = u8;

pub type AddressBytes = Vec<u8>;

pub type Packets = Vec<Packet>;

/// Size of the batch id that a raptor-coded packet carries.
pub const BATCH_ID_SIZE: usize = 32;

/// How many packets to receive from a socket in a single system call.
pub const NUM_RCVMMSGS: usize = 32;

/// Maximum over-the-wire size of a transaction: the IPv6 minimum MTU.
pub const MTU_SIZE: usize = 1280;

/// Bytes of a packet's sequence number.
pub const PACKET_SNO: usize = 4;

/// Bytes of a packet's flags.
pub const FLAGS: usize = 1;

/// Payload of a raptor-coded packet: the MTU less the sequence number, the
/// flags, the IPv6 header (40 bytes) and the fragment header (8 bytes).
pub const PAYLOAD_SIZE: usize = 1227;

/// Most source blocks the raptor encoder can split a message into: it
/// counts them in a byte.
pub const RAPTOR_MAX_BLOCKS: u64 = 255;

/// Most source symbols the raptor encoder puts in one block (K'max of RFC
/// 6330, reached with its default decoder memory for any packet size from
/// 64 bytes).
pub const RAPTOR_MAX_BLOCK_SYMBOLS: u64 = 56403;

/// Largest message the raptor encoder takes with `PAYLOAD_SIZE` packets:
/// 255 blocks of 56403 symbols of 1224 bytes (the packet size rounded down
/// to a multiple of 8).
pub const MAX_RAPTOR_MESSAGE: u64 = 17604504360;

/// Largest number of repair packets per block that the raptor encoder is
/// handed here: repair symbol ids start after a block's extended source
/// symbols (at most RAPTOR_MAX_BLOCK_SYMBOLS of them) and must stay below
/// 2^24.
pub const MAX_REPAIR_PACKETS: u32 = 16720813;

/// Size of the data carried by one packet made by `packetize`.
pub const CHUNK_SIZE: usize = 1024;

/// Marker trait for protocols.
pub trait Protocol {}

/// A trait implemented on objects that need to be sent across the network,
/// whether kademlia, gossip, or some other protocol.
pub trait Packetize: ByteRep {
    fn packetize(&self) -> Vec<Packet>;
}

/// Packet contains a common id derived from the message, n is the packet
/// number, total_n is the total number of packets generated by the message,
/// bytes is a hexadecimal string representation of the MessageData broken
/// down into packet(s), ret is a 0 or 1 representing a return receipt.
#[derive(Debug)]
pub struct Packet {
    pub id: InnerKey,
    pub n: usize,
    pub total_n: usize,
    pub bytes: String,
    pub ret: ReturnReceipt,
    pub is_raptor_q_packet: bool,
}

impl Clone for Packet {
    fn clone(&self) -> (r: Self)
        ensures
            r == *self,
    {
        Packet {
            id: self.id,
            n: self.n,
            total_n: self.total_n,
            bytes: self.bytes.clone(),
            ret: self.ret,
            is_raptor_q_packet: self.is_raptor_q_packet,
        }
    }
}

/// An acknowledge message sent back to the sender of a packet in response to
/// a return receipt being required by a given packet. It holds the packet's
/// common id, the packet number being acknowledged and the bytes of the
/// acknowledging node's socket address.
#[derive(Debug)]
pub struct AckMessage {
    pub packet_id: InnerKey,
    pub packet_number: usize,
    pub src: AddressBytes,
}

impl Clone for AckMessage {
    fn clone(&self) -> (r: Self)
        ensures
            r.packet_id == self.packet_id,
            r.packet_number == self.packet_number,
            r.src@ == self.src@,
    {
        AckMessage {
            packet_id: self.packet_id,
            packet_number: self.packet_number,
            src: copy_bytes(&self.src),
        }
    }
}

/// Headers to identify and route messages to the proper component.
#[derive(Clone, Copy, Debug, PartialEq, Eq, Structural)]
pub enum Header {
    Request,
    Response,
    Gossip,
    Ack,
    RaptorQGossip,
}

/// A message struct contains a header and message data
#[derive(Debug)]
pub struct Message {
    pub head: Header,
    pub msg: MessageData,
}

impl Clone for Message {
    fn clone(&self) -> (r: Self)
        ensures
            r.head == self.head,
            r.msg@ == self.msg@,
    {
        Message { head: self.head, msg: copy_bytes(&self.msg) }
    }
}

/// A tuple struct containing a byte representation of a 256 bit key
#[derive(Debug, Hash, PartialEq, Eq, PartialOrd, Ord)]
pub struct MessageKey(pub InnerKey);

impl Clone for MessageKey {
    fn clone(&self) -> (r: Self)
        ensures
            r == *self,
    {
        MessageKey(self.0)
    }
}

impl Copy for MessageKey {}

impl Default for MessageKey {
    fn default() -> (r: Self)
        ensures
            forall|i: int| 0 <= i < 32 ==> r.0@[i] == 0,
    {
        MessageKey([0u8; 32])
    }
}

impl MessageKey {
    /// generates a new Message Key from a 32 byte array representing a 256 bit key
    pub fn new(v: InnerKey) -> (r: Self)
        ensures
            r.0 == v,
    {
        MessageKey(v)
    }

    /// Generate a random key
    pub fn rand() -> (r: Self)
        ensures
            r.0@.len() == 32,
    {
        MessageKey(random_bytes_32())
    }

    /// Generate a random key whose first `idx` bits are zero and whose bit
    /// `idx` is one.
    pub fn rand_in_range(idx: usize) -> (r: Self)
        requires
            idx < 256,
        ensures
            in_range_shape(r.0@, idx as nat),
    {
        MessageKey(force_leading_zeros(random_bytes_32(), idx))
    }

    /// Return the inner key
    pub fn inner(&self) -> (r: InnerKey)
        ensures
            r == self.0,
    {
        self.0
    }

    /// Return the Message Key given an Inner key
    pub fn from_inner(v: InnerKey) -> (r: MessageKey)
        ensures
            r.0 == v,
    {
        MessageKey(v)
    }
}

/// A message for the Kademlia DHT protocol: a request, a response, or kill.
#[derive(Debug)]
pub enum KadMessage {
    Request(RequestBytes),
    Response(ResponseBytes),
    Kill,
}

/// Copies a byte slice into a new vector.
pub fn copy_bytes(data: &[u8]) -> (r: Vec<u8>)
    ensures
        r@ == data@,
{
    copy_range(data, 0, data.len())
}

/// Copies `data[from..to]` into a new vector.
pub fn copy_range(data: &[u8], from: usize, to: usize) -> (r: Vec<u8>)
    requires
        from <= to <= data@.len(),
    ensures
        r@ == data@.subrange(from as int, to as int),
{
    let mut ret: Vec<u8> = Vec::with_capacity(to - from);
    let mut i: usize = from;
    while i < to
        invariant
            from <= i <= to,
            to <= data@.len(),
            ret@ == data@.subrange(from as int, i as int),
        decreases to - i,
    {
        ret.push(data[i]);
        i = i + 1;
        assert(ret@ =~= data@.subrange(from as int, i as int));
    }
    ret
}

/// Whether two 32 byte keys are equal.
pub fn same_inner_key(a: &InnerKey, b: &InnerKey) -> (r: bool)
    ensures
        r == (a@ == b@),
{
    let mut i: usize = 0;
    while i < 32
        invariant
            i <= 32,
            a@.len() == 32,
            b@.len() == 32,
            forall|j: int| 0 <= j < i ==> a@[j] == b@[j],
        decreases 32 - i,
    {
        if a[i] != b[i] {
            return false;
        }
        i = i + 1;
    }
    assert(a@ =~= b@);
    true
}

/// The number of packets that `packetize` makes of a message of `len`
/// bytes: one below 1024 bytes; otherwise `len / 1024`, plus one unless that
/// quotient is a multiple of 1024.
pub open spec fn packet_count(len: nat) -> nat {
    if len < 1024 {
        1
    } else if (len / 1024) % 1024 != 0 {
        len / 1024 + 1
    } else {
        len / 1024
    }
}

/// Where the data of packet `i` (0-based) ends: the last packet runs to the
/// end of the message, every other packet holds 1024 bytes.
pub open spec fn chunk_end(len: nat, i: nat) -> nat {
    if i + 1 == packet_count(len) {
        len
    } else {
        1024 * (i + 1)
    }
}

/// The data carried by packet `i` (0-based) of a message.
pub open spec fn chunk(data: Seq<u8>, i: nat) -> Seq<u8> {
    data.subrange((1024 * i) as int, chunk_end(data.len(), i) as int)
}

/// The data of all the packets of a message, in order.
pub open spec fn chunks(data: Seq<u8>) -> Seq<Seq<u8>> {
    Seq::new(packet_count(data.len()), |i: int| chunk(data, i as nat))
}

/// The concatenation of a sequence of byte sequences.
pub open spec fn concat_all(parts: Seq<Seq<u8>>) -> Seq<u8>
    decreases parts.len(),
{
    if parts.len() == 0 {
        Seq::empty()
    } else {
        concat_all(parts.drop_last()) + parts.last()
    }
}

/// What `packetize` makes of a message: packet `i` (0-based) has number
/// `i + 1`, the message's id, return receipt flag and raptor flag, the
/// packet count as total, and the hex text of its data.
pub open spec fn is_packetized(
    packets: Seq<Packet>,
    data: Seq<u8>,
    id: InnerKey,
    ret: ReturnReceipt,
    is_raptor_q_packet: bool,
) -> bool {
    &&& packets.len() == packet_count(data.len())
    &&& forall|i: int|
        0 <= i < packets.len() ==> {
            &&& (#[trigger] packets[i]).id == id
            &&& packets[i].n == i + 1
            &&& packets[i].total_n == packets.len()
            &&& packets[i].ret == ret
            &&& packets[i].is_raptor_q_packet == is_raptor_q_packet
            &&& packets[i].bytes@ == hex_encoding(chunk(data, i as nat))
        }
}

proof fn lemma_count_bound(len: nat)
    ensures
        packet_count(len) >= 1,
        1024 * ((packet_count(len) - 1) as nat) <= len,
{
    assert(1024 * (len / 1024) <= len) by (nonlinear_arith);
    if len >= 1024 && (len / 1024) % 1024 == 0 {
        assert(len / 1024 >= 1) by (nonlinear_arith)
            requires
                len >= 1024,
        ;
    }
}

proof fn lemma_chunks_prefix(data: Seq<u8>, k: nat)
    requires
        k <= packet_count(data.len()),
    ensures
        concat_all(chunks(data).take(k as int)) == data.subrange(
            0,
            if k == 0 {
                0
            } else {
                chunk_end(data.len(), (k - 1) as nat) as int
            },
        ),
    decreases k,
{
    lemma_count_bound(data.len());
    let parts = chunks(data).take(k as int);
    if k == 0 {
        assert(parts.len() == 0);
        assert(data.subrange(0, 0) =~= Seq::<u8>::empty());
    } else {
        lemma_chunks_prefix(data, (k - 1) as nat);
        assert(parts.drop_last() =~= chunks(data).take(k - 1));
        let prev_end: nat = if k == 1 {
            0
        } else {
            chunk_end(data.len(), (k - 2) as nat)
        };
        assert(prev_end == 1024 * ((k - 1) as nat));
        let pc = packet_count(data.len());
        let km1 = (k - 1) as nat;
        let pcm1 = (pc - 1) as nat;
        assert(1024 * km1 <= 1024 * pcm1) by (nonlinear_arith)
            requires
                km1 <= pcm1,
        ;
        assert(chunk_end(data.len(), (k - 1) as nat) <= data.len()) by {
            if k < packet_count(data.len()) {
                assert(1024 * k <= 1024 * ((packet_count(data.len()) - 1) as nat))
                    by (nonlinear_arith)
                    requires
                        k < packet_count(data.len()),
                ;
            }
        }
        assert(parts.last() == chunk(data, (k - 1) as nat));
        assert(data.subrange(0, prev_end as int) + chunk(data, (k - 1) as nat) =~= data.subrange(
            0,
            chunk_end(data.len(), (k - 1) as nat) as int,
        ));
    }
}

/// The sizes of the chunks of a message of `len` bytes: every chunk but the
/// last holds exactly 1024 bytes, the last fewer than 2048, and, unless
/// `len / 1024` is a positive multiple of 1024, at most 1024.
proof fn lemma_chunk_sizes(len: nat)
    ensures
        forall|i: nat|
            i + 1 < packet_count(len) ==> chunk_end(len, i) == 1024 * i + 1024 && #[trigger] chunk_end(
                len,
                i,
            ) <= len,
        len - 1024 * ((packet_count(len) - 1) as nat) < 2048,
        len >= 1024 * ((packet_count(len) - 1) as nat),
        (len < 1024 || (len / 1024) % 1024 != 0) ==> len - 1024 * ((packet_count(len) - 1) as nat) <= 1024,
{
    lemma_count_bound(len);
    let q = len / 1024;
    assert(len == 1024 * q + len % 1024) by (nonlinear_arith)
        requires
            q == len / 1024,
    ;
    assert(len % 1024 < 1024) by (nonlinear_arith);
    if len < 1024 {
        assert(q == 0) by (nonlinear_arith)
            requires
                len < 1024,
                q == len / 1024,
        ;
    } else {
        assert(q >= 1) by (nonlinear_arith)
            requires
                len >= 1024,
                q == len / 1024,
        ;
    }
    assert forall|i: nat| i + 1 < packet_count(len) implies chunk_end(len, i) == 1024 * i + 1024
        && #[trigger] chunk_end(len, i) <= len by {
        assert(1024 * (i + 1) <= 1024 * ((packet_count(len) - 1) as nat)) by (nonlinear_arith)
            requires
                i + 1 <= packet_count(len) - 1,
        ;
    }
}

/// Every packet that `packetize` makes carries a hex text of at most 2047
/// bytes of data, every packet but the last exactly 1024 bytes' worth; and
/// unless `len / 1024` is a positive multiple of 1024 (where no extra packet
/// is added for the rest), every packet carries at most 1024 bytes.
pub proof fn lemma_packet_sizes(
    packets: Seq<Packet>,
    data: Seq<u8>,
    id: InnerKey,
    ret: ReturnReceipt,
    flag: bool,
)
    requires
        is_packetized(packets, data, id, ret, flag),
    ensures
        packets.len() >= 1,
        forall|i: int| 0 <= i < packets.len() - 1 ==> (#[trigger] packets[i]).bytes@.len() == 2 * 1024,
        packets.last().bytes@.len() < 2 * 2048,
        (data.len() < 1024 || (data.len() / 1024) % 1024 != 0) ==> forall|i: int|
            0 <= i < packets.len() ==> (#[trigger] packets[i]).bytes@.len() <= 2 * 1024,
{
    let len = data.len();
    lemma_chunk_sizes(len);
    let k = packets.len();
    assert forall|i: int| 0 <= i < k implies (#[trigger] packets[i]).bytes@.len() == 2 * chunk(data, i as nat).len() by {
        assert(packets[i].bytes@ == hex_encoding(chunk(data, i as nat)));
    }
    assert forall|i: int| 0 <= i < k - 1 implies (#[trigger] packets[i]).bytes@.len() == 2 * 1024 by {
        assert(chunk_end(len, i as nat) <= len);
        assert(packets[i].bytes@.len() == 2 * chunk(data, i as nat).len());
    }
    assert(packets.last() == packets[k - 1]);
    assert(chunk_end(len, (k - 1) as nat) == len);
    assert(packets[k - 1].bytes@.len() == 2 * chunk(data, (k - 1) as nat).len());
}

/// The packets' data, concatenated in order, is the whole message.
pub proof fn lemma_chunks_concat(data: Seq<u8>)
    ensures
        concat_all(chunks(data)) == data,
{
    lemma_count_bound(data.len());
    let k = packet_count(data.len());
    lemma_chunks_prefix(data, k);
    assert(chunks(data).take(k as int) =~= chunks(data));
    assert(data.subrange(0, data.len() as int) =~= data);
}

/// A function that returns a vector of *n* Packet(s) based on the size of
/// the MessageData passed to it.
///
/// # Arguments
///
/// * bytes - the message data to be split up into packets
/// * id - a common id shared by all packets derived from the same message for reassembly by the receiver
/// * ret - a 0 or 1 representing whether a return receipt is required of the sender
pub fn packetize(bytes: MessageData, id: InnerKey, ret: ReturnReceipt, is_raptor_q_packet: bool) -> (r:
    Packets)
    ensures
        is_packetized(r@, bytes@, id, ret, is_raptor_q_packet),
{
    let len = bytes.len();
    proof {
        lemma_count_bound(len as nat);
    }
    if len < 1024 {
        let hex_string = hex_encode(bytes.as_slice());
        let packet = Packet { id, n: 1, total_n: 1, bytes: hex_string, ret, is_raptor_q_packet };
        assert(bytes@.subrange(0, len as int) =~= bytes@);
        return vec![packet];
    }
    let mut n_packets: usize = len / 1024;
    if n_packets % 1024 != 0 {
        n_packets = n_packets + 1;
    }
    assert(n_packets == packet_count(len as nat));
    let mut packets: Vec<Packet> = Vec::new();
    let mut n: usize = 0;
    while n < n_packets
        invariant
            len == bytes@.len(),
            n_packets == packet_count(len as nat),
            1024 * ((n_packets - 1) as nat) <= len,
            n <= n_packets,
            packets@.len() == n,
            forall|i: int|
                0 <= i < n ==> {
                    &&& (#[trigger] packets@[i]).id == id
                    &&& packets@[i].n == i + 1
                    &&& packets@[i].total_n == n_packets
                    &&& packets@[i].ret == ret
                    &&& packets@[i].is_raptor_q_packet == is_raptor_q_packet
                    &&& packets@[i].bytes@ == hex_encoding(chunk(bytes@, i as nat))
                },
        decreases n_packets - n,
    {
        assert(1024 * n <= 1024 * ((n_packets - 1) as nat)) by (nonlinear_arith)
            requires
                n < n_packets,
        ;
        let start: usize = 1024 * n;
        let end: usize = if n == n_packets - 1 {
            len
        } else {
            assert(1024 * (n + 1) <= 1024 * ((n_packets - 1) as nat)) by (nonlinear_arith)
                requires
                    n + 1 < n_packets,
            ;
            1024 * (n + 1)
        };
        let part = copy_range(bytes.as_slice(), start, end);
        let hex_string = hex_encode(part.as_slice());
        packets.push(
            Packet { id, n: n + 1, total_n: n_packets, bytes: hex_string, ret, is_raptor_q_packet },
        );
        n = n + 1;
    }
    packets
}

/// The message bytes read back from packets ordered by number: the
/// concatenation of their hex-decoded texts, or `None` where a text is not
/// hex.
pub open spec fn decoded_concat(texts: Seq<Seq<char>>) -> Option<Seq<u8>>
    decreases texts.len(),
{
    if texts.len() == 0 {
        Some(Seq::empty())
    } else {
        match decoded_concat(texts.drop_last()) {
            Some(prefix) => if is_hex_text(texts.last()) {
                Some(prefix + hex_decoding(texts.last()))
            } else {
                None
            },
            None => None,
        }
    }
}

proof fn lemma_decoded_concat_of_encoding(parts: Seq<Seq<u8>>)
    ensures
        decoded_concat(Seq::new(parts.len(), |i: int| hex_encoding(parts[i]))) == Some(
            concat_all(parts),
        ),
    decreases parts.len(),
{
    let texts = Seq::new(parts.len(), |i: int| hex_encoding(parts[i]));
    if parts.len() > 0 {
        let prev = parts.drop_last();
        lemma_decoded_concat_of_encoding(prev);
        assert(texts.drop_last() =~= Seq::new(prev.len(), |i: int| hex_encoding(prev[i])));
        lemma_hex_round_trip(parts.last());
    }
}

/// The texts of the packets that `packetize` makes, read back in order, give
/// the message: what a sender splits, a receiver reassembles.
pub proof fn lemma_packetize_round_trip(
    packets: Seq<Packet>,
    data: Seq<u8>,
    id: InnerKey,
    ret: ReturnReceipt,
    flag: bool,
)
    requires
        is_packetized(packets, data, id, ret, flag),
    ensures
        decoded_concat(Seq::new(packets.len(), |i: int| packets[i].bytes@)) == Some(data),
{
    let parts = chunks(data);
    lemma_decoded_concat_of_encoding(parts);
    lemma_chunks_concat(data);
    assert(Seq::new(packets.len(), |i: int| packets[i].bytes@) =~= Seq::new(
        parts.len(),
        |i: int| hex_encoding(parts[i]),
    ));
}

/// The raptor-coded packets that `raptorq::Encoder::with_defaults(data,
/// mtu).get_encoded_packets(repair)` gives, each serialized.
pub uninterp spec fn raptorq_encoded(data: Seq<u8>, mtu: u16, repair: u32) -> Seq<Seq<u8>>;

/// Calls `raptorq::Encoder::with_defaults` and `get_encoded_packets`, then
/// `EncodingPacket::serialize` on each packet. The encoder panics on empty
/// data (a division by zero), on symbol ids of 2^24 and more, and on packet
/// sizes below its alignment; and it counts source blocks in a byte, so a
/// message of more than 255 full blocks breaks its block sizes. The bounds
/// below keep clear of those. The result is named `raptorq_encoded`.
#[verifier::external_body]
fn raptorq_encode(data: &[u8], mtu: u16, repair: u32) -> (r: Vec<Vec<u8>>)
    requires
        0 < data@.len() <= RAPTOR_MAX_BLOCKS * RAPTOR_MAX_BLOCK_SYMBOLS * (mtu - mtu % 8),
        64 <= mtu,
        repair <= MAX_REPAIR_PACKETS,
    ensures
        r.deep_view() == raptorq_encoded(data@, mtu, repair),
{
    raptorq::Encoder::with_defaults(data, mtu)
        .get_encoded_packets(repair)
        .iter()
        .map(|packet| packet.serialize())
        .collect()
}

/// `split_into_packets` takes a `full_list` of bytes, a `batch_id` and an
/// `erasure_count` and returns the raptor-coded packets of the bytes.
pub fn split_into_packets(full_list: &[u8], batch_id: [u8; 32], erasure_count: u32) -> (r: Vec<
    Vec<u8>,
>)
    requires
        0 < full_list@.len() <= MAX_RAPTOR_MESSAGE,
        erasure_count <= MAX_REPAIR_PACKETS,
    ensures
        r.deep_view() == raptorq_encoded(full_list@, PAYLOAD_SIZE as u16, erasure_count),
{
    let packet_holder = encode_into_packets(full_list, erasure_count);
    packet_holder
}

/// Takes a list of bytes and an erasure count, and returns the raptor-coded
/// packets, each with `PAYLOAD_SIZE` as the encoder's packet size.
pub fn encode_into_packets(unencoded_packet_list: &[u8], erasure_count: u32) -> (r: Vec<Vec<u8>>)
    requires
        0 < unencoded_packet_list@.len() <= MAX_RAPTOR_MESSAGE,
        erasure_count <= MAX_REPAIR_PACKETS,
    ensures
        r.deep_view() == raptorq_encoded(unencoded_packet_list@, PAYLOAD_SIZE as u16, erasure_count),
{
    let mtu: u16 = PAYLOAD_SIZE as u16;
    assert(mtu - mtu % 8 == 1224);
    assert(RAPTOR_MAX_BLOCKS * RAPTOR_MAX_BLOCK_SYMBOLS * 1224 == MAX_RAPTOR_MESSAGE) by (nonlinear_arith);
    raptorq_encode(unencoded_packet_list, mtu, erasure_count)
}

/// Takes a batch id and a payload, and returns a packet: a zero byte (for
/// the raptor coding length), a forward flag of one, the batch id, then the
/// payload.
pub fn create_packet(batch_id: [u8; 32], payload: Vec<u8>) -> (r: Vec<u8>)
    ensures
        r@ == seq![0u8, 1u8] + batch_id@ + payload@,
{
    let mut mtu: Vec<u8> = Vec::new();
    mtu.push(0u8);
    mtu.push(1u8);
    let mut i: usize = 0;
    while i < BATCH_ID_SIZE
        invariant
            i <= 32,
            mtu@ == seq![0u8, 1u8] + batch_id@.take(i as int),
        decreases 32 - i,
    {
        mtu.push(batch_id[i]);
        i = i + 1;
        assert(mtu@ =~= seq![0u8, 1u8] + batch_id@.take(i as int));
    }
    assert(batch_id@.take(32) =~= batch_id@);
    let mut j: usize = 0;
    while j < payload.len()
        invariant
            j <= payload@.len(),
            mtu@ == seq![0u8, 1u8] + batch_id@ + payload@.take(j as int),
        decreases payload@.len() - j,
    {
        mtu.push(payload[j]);
        j = j + 1;
        assert(mtu@ =~= seq![0u8, 1u8] + batch_id@ + payload@.take(j as int));
    }
    assert(payload@.take(j as int) =~= payload@);
    mtu
}

/// Reads the batch id of a raptor-coded packet: the 32 bytes from offset 3.
pub fn get_batch_id(packet: &[u8; 1280]) -> (r: [u8; 32])
    ensures
        r@ == packet@.subrange(3, 35),
{
    let mut batch_id: [u8; 32] = [0u8; 32];
    let mut chunk_no: usize = 0;
    let mut i: usize = 3;
    while i < BATCH_ID_SIZE + 3
        invariant
            3 <= i <= 35,
            chunk_no == i - 3,
            batch_id@.len() == 32,
            packet@.len() == 1280,
            forall|j: int| 0 <= j < chunk_no ==> batch_id@[j] == packet@[j + 3],
        decreases 35 - i,
    {
        batch_id[chunk_no] = packet[i];
        chunk_no = chunk_no + 1;
        i = i + 1;
    }
    assert(batch_id@ =~= packet@.subrange(3, 35));
    batch_id
}

/// `get_batch_id` does not read back the batch id that `create_packet`
/// wrote: the id is written from byte 2, but bytes 3 to 35 are read, which
/// are the id's last 31 bytes and the payload's first byte. They equal the
/// id only for an id whose every byte equals the payload's first byte.
pub proof fn lemma_batch_id_offset(id: Seq<u8>, payload: Seq<u8>)
    requires
        id.len() == 32,
        payload.len() >= 1,
    ensures
        (seq![0u8, 1u8] + id + payload).subrange(3, 35) == id.subrange(1, 32).push(payload[0]),
        (seq![0u8, 1u8] + id + payload).subrange(3, 35) == id <==> forall|j: int| 0 <= j < 32 ==> id[j]
            == payload[0],
{
    let laid = seq![0u8, 1u8] + id + payload;
    let read = laid.subrange(3, 35);
    assert(read =~= id.subrange(1, 32).push(payload[0]));
    if read == id {
        assert forall|j: int| 0 <= j < 32 implies id[j] == payload[0] by {
            lemma_shifted_constant(id, payload[0], j);
        }
    }
    if forall|j: int| 0 <= j < 32 ==> id[j] == payload[0] {
        assert(read =~= id);
    }
}

/// A 32 byte sequence equal to itself shifted left by one with `b` put at
/// the end holds `b` everywhere.
proof fn lemma_shifted_constant(id: Seq<u8>, b: u8, j: int)
    requires
        id.len() == 32,
        id.subrange(1, 32).push(b) == id,
        0 <= j < 32,
    ensures
        id[j] == b,
    decreases 32 - j,
{
    if j == 31 {
        assert(id.subrange(1, 32).push(b)[31] == b);
    } else {
        lemma_shifted_constant(id, b, j + 1);
        assert(id.subrange(1, 32).push(b)[j] == id[j + 1]);
    }
}

/// The common id of a packet.
pub fn get_packet_id(packet: &Packet) -> (r: InnerKey)
    ensures
        r == packet.id,
{
    packet.id
}

} // verus!
