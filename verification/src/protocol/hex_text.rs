use vstd::prelude::*;

verus! {

/// The lowercase hex digit of a value below 16.
pub open spec fn hex_digit(v: u8) -> char {
    if v < 10 {
        (48 + v) as char
    } else {
        (87 + v) as char
    }
}

/// Whether `c` is a hex digit (either case).
pub open spec fn is_hex_char(c: char) -> bool {
    ('0' <= c && c <= '9') || ('a' <= c && c <= 'f') || ('A' <= c && c <= 'F')
}

/// Whether `c` is a lowercase hex digit.
pub open spec fn is_lower_hex_char(c: char) -> bool {
    ('0' <= c && c <= '9') || ('a' <= c && c <= 'f')
}

/// The value of a hex digit (either case).
pub open spec fn hex_value(c: char) -> u8 {
    if '0' <= c && c <= '9' {
        (c as u32 - 48) as u8
    } else if 'a' <= c && c <= 'f' {
        (c as u32 - 87) as u8
    } else {
        (c as u32 - 55) as u8
    }
}

/// The lowercase hex text of a byte sequence: two digits per byte, the high
/// nibble first.
pub open spec fn hex_encoding(data: Seq<u8>) -> Seq<char> {
    Seq::new(
        2 * data.len(),
        |i: int|
            if i % 2 == 0 {
                hex_digit(data[i / 2] >> 4u8)
            } else {
                hex_digit(data[i / 2] & 15u8)
            },
    )
}

/// Whether `text` can be read back as bytes: an even number of hex digits.
pub open spec fn is_hex_text(text: Seq<char>) -> bool {
    &&& text.len() % 2 == 0
    &&& forall|i: int| 0 <= i < text.len() ==> is_hex_char(#[trigger] text[i])
}

/// The bytes written by a hex text: each pair of digits gives one byte.
pub open spec fn hex_decoding(text: Seq<char>) -> Seq<u8> {
    Seq::new(
        text.len() / 2,
        |i: int| (hex_value(text[2 * i]) * 16 + hex_value(text[2 * i + 1])) as u8,
    )
}

/// Calls `hex::encode`, which writes each byte as two lowercase hex digits,
/// the high nibble first.
#[verifier::external_body]
pub(crate) fn hex_encode(data: &[u8]) -> (r: String)
    ensures
        r@ == hex_encoding(data@),
{
    hex::encode(data)
}

/// Calls `hex::decode` on the text's bytes; an error becomes `None`. The
/// crate accepts exactly an even number of hex digits of either case and
/// reads each pair as one byte.
#[verifier::external_body]
pub(crate) fn hex_decode(text: &str) -> (r: Option<Vec<u8>>)
    ensures
        match r {
            Some(v) => is_hex_text(text@) && v@ == hex_decoding(text@),
            None => !is_hex_text(text@),
        },
{
    hex::decode(text).ok()
}

proof fn lemma_byte_nibbles(x: u8)
    by (bit_vector)
    ensures
        x >> 4u8 < 16,
        x & 15u8 < 16,
        (x >> 4u8) * 16 + (x & 15u8) == x,
{
}

proof fn lemma_hex_digit_value(v: u8)
    requires
        v < 16,
    ensures
        is_hex_char(hex_digit(v)),
        hex_value(hex_digit(v)) == v,
{
}

/// Hex text read back gives the bytes that were written: decoding is the
/// inverse of encoding.
pub proof fn lemma_hex_round_trip(data: Seq<u8>)
    ensures
        is_hex_text(hex_encoding(data)),
        hex_decoding(hex_encoding(data)) == data,
{
    let t = hex_encoding(data);
    assert forall|i: int| 0 <= i < t.len() implies is_hex_char(#[trigger] t[i]) by {
        lemma_byte_nibbles(data[i / 2]);
        if i % 2 == 0 {
            lemma_hex_digit_value(data[i / 2] >> 4u8);
        } else {
            lemma_hex_digit_value(data[i / 2] & 15u8);
        }
    }
    assert forall|i: int| 0 <= i < data.len() implies #[trigger] hex_decoding(t)[i] == data[i] by {
        let x = data[i];
        lemma_byte_nibbles(x);
        lemma_hex_digit_value(x >> 4u8);
        lemma_hex_digit_value(x & 15u8);
        assert(t[2 * i] == hex_digit(x >> 4u8));
        assert(t[2 * i + 1] == hex_digit(x & 15u8));
    }
    assert(hex_decoding(t) =~= data);
}

} // verus!
