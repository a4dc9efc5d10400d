use vstd::prelude::*;
use crate::utils::random::random_bytes_32;
use crate::utils::utils::Distance;

verus! {

/// A 256 bit key, stored as 32 bytes with the most significant byte first.
#[derive(Debug, Hash, PartialEq, Eq, PartialOrd, Ord)]
pub struct Key(pub [u8; 32]);

impl Clone for Key {
    fn clone(&self) -> (r: Self)
        ensures
            r == *self,
    {
        Key(self.0)
    }
}

impl Copy for Key {}

impl View for Key {
    type V = Seq<u8>;

    open spec fn view(&self) -> Seq<u8> {
        self.0@
    }
}

/// Bit `i` of a key, counting from the most significant bit of the first byte.
pub open spec fn key_bit(k: Seq<u8>, i: int) -> bool {
    (k[i / 8] >> ((7 - i % 8) as u8)) & 1u8 == 1u8
}

/// The position of the first set bit at or after `i`, or 256 if there is none.
pub open spec fn first_set_bit_from(k: Seq<u8>, i: nat) -> nat
    decreases 256 - i,
{
    if i >= 256 {
        256
    } else if key_bit(k, i as int) {
        i
    } else {
        first_set_bit_from(k, i + 1)
    }
}

/// The number of leading zero bits of a key (256 for the zero key).
pub open spec fn leading_zero_bits(k: Seq<u8>) -> nat {
    first_set_bit_from(k, 0)
}

/// The first `n` bits of a key written as a string of '0' and '1'.
pub open spec fn bit_string(k: Seq<u8>, n: nat) -> Seq<char> {
    Seq::new(n, |i: int| if key_bit(k, i) { '1' } else { '0' })
}

/// Bytewise exclusive or of two keys.
pub open spec fn xor_bytes(a: Seq<u8>, b: Seq<u8>) -> Seq<u8> {
    Seq::new(32, |i: int| a[i] ^ b[i])
}

/// Lexicographic order on the bytes from position `i` on.
pub open spec fn lex_lt_from(a: Seq<u8>, b: Seq<u8>, i: nat) -> bool
    decreases 32 - i,
{
    if i >= 32 {
        false
    } else if a[i as int] < b[i as int] {
        true
    } else if a[i as int] > b[i as int] {
        false
    } else {
        lex_lt_from(a, b, i + 1)
    }
}

/// Strict order of keys as 256 bit unsigned numbers.
pub open spec fn key_lt(a: Seq<u8>, b: Seq<u8>) -> bool {
    lex_lt_from(a, b, 0)
}

/// Non-strict order of keys as 256 bit unsigned numbers.
pub open spec fn key_le(a: Seq<u8>, b: Seq<u8>) -> bool {
    !key_lt(b, a)
}

/// Bits of the key that `rand_in_range(idx)` fixes: every bit before `idx`
/// is zero and bit `idx` is one.
pub open spec fn in_range_shape(k: Seq<u8>, idx: nat) -> bool {
    &&& forall|j: int| 0 <= j < idx ==> !key_bit(k, j)
    &&& key_bit(k, idx as int)
}

proof fn lemma_lex_lt_trans(a: Seq<u8>, b: Seq<u8>, c: Seq<u8>, i: nat)
    requires
        lex_lt_from(a, b, i),
        lex_lt_from(b, c, i),
    ensures
        lex_lt_from(a, c, i),
    decreases 32 - i,
{
    if i < 32 {
        if a[i as int] == b[i as int] && b[i as int] == c[i as int] {
            lemma_lex_lt_trans(a, b, c, i + 1);
        }
    }
}

proof fn lemma_lex_lt_total(a: Seq<u8>, b: Seq<u8>, i: nat)
    requires
        !lex_lt_from(a, b, i),
        !lex_lt_from(b, a, i),
    ensures
        forall|j: int| i <= j < 32 ==> a[j] == b[j],
    decreases 32 - i,
{
    if i < 32 {
        lemma_lex_lt_total(a, b, i + 1);
    }
}

proof fn lemma_lex_lt_irrefl(a: Seq<u8>, i: nat)
    ensures
        !lex_lt_from(a, a, i),
    decreases 32 - i,
{
    if i < 32 {
        lemma_lex_lt_irrefl(a, i + 1);
    }
}

/// The order of keys is a strict total order on 32 byte keys.
pub proof fn lemma_key_order(a: Seq<u8>, b: Seq<u8>, c: Seq<u8>)
    requires
        a.len() == 32,
        b.len() == 32,
        c.len() == 32,
    ensures
        !key_lt(a, a),
        key_lt(a, b) && key_lt(b, c) ==> key_lt(a, c),
        !key_lt(a, b) && !key_lt(b, a) ==> a == b,
{
    lemma_lex_lt_irrefl(a, 0);
    if key_lt(a, b) && key_lt(b, c) {
        lemma_lex_lt_trans(a, b, c, 0);
    }
    if !key_lt(a, b) && !key_lt(b, a) {
        lemma_lex_lt_total(a, b, 0);
        assert(a =~= b);
    }
}

proof fn lemma_first_set_bit_skip(k: Seq<u8>, i: nat)
    requires
        i <= 256,
        forall|j: int| 0 <= j < i ==> !key_bit(k, j),
    ensures
        first_set_bit_from(k, 0) == first_set_bit_from(k, i),
    decreases i,
{
    if i > 0 {
        lemma_first_set_bit_skip(k, (i - 1) as nat);
    }
}

proof fn lemma_bits_of_masked_byte(b: u8, bit: u8, j: u8)
    by (bit_vector)
    requires
        bit < 8,
        j < bit,
    ensures
        ((((b & (0xFFu8 >> bit)) | (1u8 << ((7 - bit) as u8))) >> ((7 - j) as u8)) & 1u8) == 0u8,
{
}

proof fn lemma_set_bit_of_masked_byte(b: u8, bit: u8)
    by (bit_vector)
    requires
        bit < 8,
    ensures
        ((((b & (0xFFu8 >> bit)) | (1u8 << ((7 - bit) as u8))) >> ((7 - bit) as u8)) & 1u8) == 1u8,
{
}

proof fn lemma_zero_byte_bits(s: u8)
    by (bit_vector)
    ensures
        ((0u8 >> s) & 1u8) == 0u8,
{
}

/// The byte that `rand_in_range` writes at position `idx / 8`.
pub open spec fn masked_byte(b: u8, bit: u8) -> u8 {
    (b & (0xFFu8 >> bit)) | (1u8 << ((7 - bit) as u8))
}

/// Clears the bits before `idx` and sets bit `idx` of 32 bytes.
pub fn force_leading_zeros(v: [u8; 32], idx: usize) -> (r: [u8; 32])
    requires
        idx < 256,
    ensures
        r@.len() == 32,
        in_range_shape(r@, idx as nat),
        forall|i: int| 0 <= i < idx / 8 ==> r@[i] == 0,
        r@[(idx / 8) as int] == masked_byte(v@[(idx / 8) as int], (idx % 8) as u8),
        forall|i: int| idx / 8 < i < 32 ==> r@[i] == v@[i],
{
    let mut ret = v;
    let bytes: usize = idx / 8;
    let bit: usize = idx % 8;
    let mut i: usize = 0;
    while i < bytes
        invariant
            bytes == idx / 8,
            bytes < 32,
            i <= bytes,
            ret@.len() == 32,
            forall|j: int| 0 <= j < i ==> ret@[j] == 0,
            forall|j: int| bytes <= j < 32 ==> ret@[j] == v@[j],
        decreases bytes - i,
    {
        ret[i] = 0;
        i = i + 1;
    }
    let bit8: u8 = bit as u8;
    let b: u8 = ret[bytes];
    ret[bytes] = (b & (0xFFu8 >> bit8)) | (1u8 << (7 - bit8));
    proof {
        assert forall|j: int| 0 <= j < idx implies !key_bit(ret@, j) by {
            if j / 8 < bytes {
                lemma_zero_byte_bits((7 - j % 8) as u8);
            } else {
                assert(j / 8 == bytes);
                lemma_bits_of_masked_byte(b, bit8, (j % 8) as u8);
            }
        }
        lemma_set_bit_of_masked_byte(b, bit8);
    }
    ret
}

impl Key {
    /// Wraps 32 bytes as a key.
    pub fn new(v: [u8; 32]) -> (r: Key)
        ensures
            r@ == v@,
    {
        Key(v)
    }

    /// The 32 bytes of the key.
    pub fn get_key(&self) -> (r: [u8; 32])
        ensures
            r@ == self@,
    {
        self.0
    }

    /// A key made of 32 random bytes.
    pub fn rand() -> (r: Key)
        ensures
            r@.len() == 32,
    {
        Key(random_bytes_32())
    }

    /// A random key whose first `idx` bits are zero and whose bit `idx` is
    /// one, i.e. a random key with exactly `idx` leading zeros.
    pub fn rand_in_range(idx: usize) -> (r: Key)
        requires
            idx < 256,
        ensures
            r@.len() == 32,
            in_range_shape(r@, idx as nat),
    {
        Key(force_leading_zeros(random_bytes_32(), idx))
    }

    /// The bit of the key at position `i`.
    pub fn bit(&self, i: usize) -> (b: bool)
        requires
            i < 256,
        ensures
            b == key_bit(self@, i as int),
    {
        let byte: u8 = self.0[i / 8];
        let shift: u8 = (7 - i % 8) as u8;
        (byte >> shift) & 1u8 == 1u8
    }

    /// The first `idx + 1` bits of the key written as '0' and '1' characters.
    pub fn get_prefix(&self, idx: usize) -> (r: String)
        requires
            idx < 256,
        ensures
            r@ == bit_string(self@, (idx + 1) as nat),
    {
        let mut ret = String::new();
        let mut i: usize = 0;
        while i <= idx
            invariant
                idx < 256,
                i <= idx + 1,
                ret@ == bit_string(self@, i as nat),
            decreases idx + 1 - i,
        {
            proof {
                reveal_strlit("1");
                reveal_strlit("0");
            }
            if self.bit(i) {
                ret.append("1");
            } else {
                ret.append("0");
            }
            assert(ret@ =~= bit_string(self@, (i + 1) as nat));
            i = i + 1;
        }
        ret
    }

    /// Whether this key is smaller than `other` as a 256 bit unsigned number.
    pub fn less_than(&self, other: &Key) -> (r: bool)
        ensures
            r == key_lt(self@, other@),
    {
        let mut i: usize = 0;
        while i < 32
            invariant
                i <= 32,
                forall|j: int| 0 <= j < i ==> self@[j] == other@[j],
                key_lt(self@, other@) == lex_lt_from(self@, other@, i as nat),
            decreases 32 - i,
        {
            if self.0[i] < other.0[i] {
                return true;
            }
            if self.0[i] > other.0[i] {
                return false;
            }
            i = i + 1;
        }
        false
    }
}

impl Distance for Key {
    type Output = Key;

    /// Bytewise exclusive or with `other`.
    fn xor(&self, other: Key) -> (r: Key)
        ensures
            r@ == xor_bytes(self@, other@),
    {
        let mut ret: [u8; 32] = [0u8; 32];
        let mut i: usize = 0;
        while i < 32
            invariant
                i <= 32,
                ret@.len() == 32,
                forall|j: int| 0 <= j < i ==> ret@[j] == self@[j] ^ other@[j],
            decreases 32 - i,
        {
            ret[i] = self.0[i] ^ other.0[i];
            i = i + 1;
        }
        assert(ret@ =~= xor_bytes(self@, other@));
        Key(ret)
    }

    /// The number of leading zero bits.
    fn leading_zeros(&self) -> (r: usize)
        ensures
            r == leading_zero_bits(self@),
    {
        let mut i: usize = 0;
        while i < 256
            invariant
                i <= 256,
                forall|j: int| 0 <= j < i ==> !key_bit(self@, j),
            decreases 256 - i,
        {
            if self.bit(i) {
                proof {
                    lemma_first_set_bit_skip(self@, i as nat);
                }
                return i;
            }
            i = i + 1;
        }
        proof {
            lemma_first_set_bit_skip(self@, 256);
        }
        256
    }
}

/// A key built by `rand_in_range(idx)` has exactly `idx` leading zeros.
pub proof fn lemma_in_range_leading_zeros(k: Seq<u8>, idx: nat)
    requires
        idx < 256,
        in_range_shape(k, idx),
    ensures
        leading_zero_bits(k) == idx,
{
    lemma_first_set_bit_skip(k, idx);
}

/// Exclusive or is its own inverse: `(a ^ b) ^ b == a`.
pub proof fn lemma_xor_involutive(a: Seq<u8>, b: Seq<u8>)
    requires
        a.len() == 32,
        b.len() == 32,
    ensures
        xor_bytes(xor_bytes(a, b), b) == a,
{
    assert forall|i: int| 0 <= i < 32 implies #[trigger] xor_bytes(xor_bytes(a, b), b)[i] == a[i] by {
        let x = a[i];
        let y = b[i];
        assert((x ^ y) ^ y == x) by (bit_vector);
    }
    assert(xor_bytes(xor_bytes(a, b), b) =~= a);
}

/// The distance of a key to itself is the zero key, which has 256 leading zeros.
pub proof fn lemma_xor_self_zero(a: Seq<u8>)
    requires
        a.len() == 32,
    ensures
        forall|i: int| 0 <= i < 32 ==> xor_bytes(a, a)[i] == 0,
        leading_zero_bits(xor_bytes(a, a)) == 256,
{
    let z = xor_bytes(a, a);
    assert forall|i: int| 0 <= i < 32 implies #[trigger] z[i] == 0 by {
        let x = a[i];
        assert(x ^ x == 0) by (bit_vector);
    }
    assert forall|j: int| 0 <= j < 256 implies !key_bit(z, j) by {
        assert(z[j / 8] == 0);
        lemma_zero_byte_bits((7 - j % 8) as u8);
    }
    lemma_first_set_bit_skip(z, 256);
}

} // verus!
