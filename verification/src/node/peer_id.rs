use vstd::prelude::*;
use crate::node::peer_key::Key;
use crate::protocol::hex_text::is_lower_hex_char;

verus! {

/// The text of `sha256::digest` applied to `data`: the lowercase hex form of
/// the SHA-256 digest.
pub uninterp spec fn sha256_hex(data: Seq<u8>) -> Seq<char>;

/// The string that `serde_json::from_str::<String>` reads from `text`, or
/// `None` where `text` is not a JSON string.
pub uninterp spec fn json_string_value(text: Seq<char>) -> Option<Seq<char>>;

/// Calls `sha256::digest` on the bytes; the result is named `sha256_hex`.
/// The crate writes the 32 byte digest with `hex::encode`: 64 lowercase hex
/// digits.
#[verifier::external_body]
fn sha256_digest(data: &[u8]) -> (r: String)
    ensures
        r@ == sha256_hex(data@),
        r@.len() == 64,
        forall|i: int| 0 <= i < 64 ==> is_lower_hex_char(#[trigger] r@[i]),
{
    sha256::digest(data)
}

/// Calls `serde_json::from_str::<String>`; an error becomes `None`. The
/// result is named `json_string_value`.
#[verifier::external_body]
fn parse_json_string(text: &str) -> (r: Option<String>)
    ensures
        match r {
            Some(s) => json_string_value(text@) == Some(s@),
            None => json_string_value(text@) is None,
        },
{
    serde_json::from_str::<String>(text).ok()
}

/// A tuple struct containing the hash representation of a 256 bit key
#[derive(Debug, Hash, PartialEq, Eq)]
pub struct PeerId(pub String);

impl Clone for PeerId {
    fn clone(&self) -> (r: Self)
        ensures
            r == *self,
    {
        PeerId(self.0.clone())
    }
}

impl View for PeerId {
    type V = Seq<char>;

    open spec fn view(&self) -> Seq<char> {
        self.0@
    }
}

impl PeerId {
    /// Returns the inner hash string
    pub fn get_id(&self) -> (r: String)
        ensures
            r == self.0,
    {
        self.0.clone()
    }

    /// Returns an ID generated with a random 256 bit key
    pub fn rand() -> (r: Self)
        ensures
            exists|k: Seq<u8>| k.len() == 32 && r@ == sha256_hex(k),
            r@.len() == 64,
            forall|i: int| 0 <= i < 64 ==> is_lower_hex_char(#[trigger] r@[i]),
    {
        let key = Key::rand();
        PeerId::from_key(&key)
    }

    /// Returns an ID generated with a random 256 bit key whose first `idx`
    /// bits are zero and whose bit `idx` is one.
    pub fn rand_in_range(idx: usize) -> (r: Self)
        requires
            idx < 256,
        ensures
            exists|k: Seq<u8>|
                k.len() == 32 && crate::node::peer_key::in_range_shape(k, idx as nat) && r@
                    == sha256_hex(k),
            r@.len() == 64,
            forall|i: int| 0 <= i < 64 ==> is_lower_hex_char(#[trigger] r@[i]),
    {
        let key = Key::rand_in_range(idx);
        PeerId::from_key(&key)
    }

    /// Returns an ID generated from a 256 bit key: the hex SHA-256 digest of
    /// its 32 bytes.
    pub fn from_key(key: &Key) -> (r: Self)
        ensures
            r@ == sha256_hex(key@),
            r@.len() == 64,
            forall|i: int| 0 <= i < 64 ==> is_lower_hex_char(#[trigger] r@[i]),
    {
        let bytes = key.get_key();
        let key_hash = sha256_digest(bytes.as_slice());
        PeerId(key_hash)
    }

    /// Returns an ID read from its JSON form, a JSON string holding the hash.
    pub fn from_str(value: String) -> (r: Self)
        requires
            json_string_value(value@) is Some,
        ensures
            r@ == json_string_value(value@)->0,
    {
        match parse_json_string(value.as_str()) {
            Some(s) => PeerId(s),
            None => {
                proof {
                    assert(false);
                }
                PeerId(String::new())
            },
        }
    }

    /// Like `from_str`, but gives `None` where `value` is not a JSON string.
    pub fn try_from_str(value: String) -> (r: Option<Self>)
        ensures
            match r {
                Some(id) => json_string_value(value@) == Some(id@),
                None => json_string_value(value@) is None,
            },
    {
        match parse_json_string(value.as_str()) {
            Some(_) => Some(PeerId::from_str(value)),
            None => None,
        }
    }
}

} // verus!
