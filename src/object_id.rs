//! A 12-byte document identifier: a 4-byte big-endian Unix timestamp in
//! seconds followed by 8 random bytes, written as 24 lowercase hex digits.
//! It is a field value of documents and has nothing to do with their
//! physical address.
use vstd::prelude::*;

verus! {

#[verifier::external_type_specification]
#[verifier::external_body]
pub struct ExFromHexError(hex::FromHexError);

/// The lowercase hex digit of `d`.
pub open spec fn hex_digit(d: int) -> char {
    seq!['0', '1', '2', '3', '4', '5', '6', '7', '8', '9', 'a', 'b', 'c', 'd', 'e', 'f'][d]
}

/// The value of a hex digit of either case.
pub open spec fn hex_value(c: char) -> int {
    if '0' <= c && c <= '9' {
        c as int - '0' as int
    } else if 'a' <= c && c <= 'f' {
        c as int - 'a' as int + 10
    } else {
        c as int - 'A' as int + 10
    }
}

pub open spec fn is_hex_char(c: char) -> bool {
    ('0' <= c && c <= '9') || ('a' <= c && c <= 'f') || ('A' <= c && c <= 'F')
}

/// Two lowercase hex digits per byte, high nibble first.
pub open spec fn hex_of(b: Seq<u8>) -> Seq<char> {
    Seq::new(
        2 * b.len(),
        |i: int|
            if i % 2 == 0 {
                hex_digit(b[i / 2] as int / 16)
            } else {
                hex_digit(b[i / 2] as int % 16)
            },
    )
}

/// `s` is exactly `2 * n` hex digits.
pub open spec fn is_hex_of_len(s: Seq<char>, n: int) -> bool {
    s.len() == 2 * n && forall|i: int| 0 <= i < s.len() ==> is_hex_char(#[trigger] s[i])
}

/// `b` is what the hex digits `s` spell, high nibble first.
pub open spec fn decodes_to(s: Seq<char>, b: Seq<u8>) -> bool {
    &&& is_hex_of_len(s, b.len() as int)
    &&& forall|j: int|
        0 <= j < b.len() ==> #[trigger] b[j] == 16 * hex_value(s[2 * j]) + hex_value(s[2 * j + 1])
}

/// The big-endian value of the first four bytes.
pub open spec fn be_u32(b: Seq<u8>) -> int {
    b[0] * 16777216 + b[1] * 65536 + b[2] * 256 + b[3]
}

/// Relies on hex::encode: two lowercase hex digits per byte, high nibble
/// first.
#[verifier::external_body]
fn encode_hex(bytes: &[u8; 12]) -> (r: String)
    ensures
        r@ == hex_of(bytes@),
{
    hex::encode(bytes)
}

/// Relies on `<[u8; 12] as hex::FromHex>::from_hex`: it accepts exactly 24
/// hex digits of either case and decodes each pair, high nibble first.
#[verifier::external_body]
fn decode_hex(s: &str) -> (r: Result<[u8; 12], hex::FromHexError>)
    ensures
        match r {
            Ok(b) => decodes_to(s@, b@),
            Err(_) => !is_hex_of_len(s@, 12),
        },
{
    <[u8; 12] as hex::FromHex>::from_hex(s)
}

/// Relies on std's SystemTime: seconds since the Unix epoch, `None` when the
/// clock is set before it.
#[verifier::external_body]
fn unix_time_secs() -> (r: Option<u64>) {
    match std::time::SystemTime::now().duration_since(std::time::UNIX_EPOCH) {
        Ok(d) => Some(d.as_secs()),
        Err(_) => None,
    }
}

/// Relies on rand::random: eight random bytes.
#[verifier::external_body]
fn random_tail() -> (r: [u8; 8]) {
    rand::random::<[u8; 8]>()
}

/// Why a hex string is not an `ObjectId`.
#[derive(Debug, Clone, Copy, PartialEq, Eq, Structural)]
pub enum ObjectIdError {
    /// The string is not exactly 24 hex digits.
    InvalidHex,
}

#[derive(Debug, Clone, Copy, PartialEq, Eq, PartialOrd, Ord, Hash)]
pub struct ObjectId {
    bytes: [u8; 12],
}

impl View for ObjectId {
    type V = Seq<u8>;

    closed spec fn view(&self) -> Seq<u8> {
        self.bytes@
    }
}

impl ObjectId {
    /// A fresh id: the current time and eight random bytes. A clock set
    /// before the Unix epoch gives timestamp zero.
    pub fn new() -> (r: Self)
        ensures
            r@.len() == 12,
    {
        let secs = match unix_time_secs() {
            Some(s) => s,
            None => 0,
        };
        Self::from_parts((secs % 4294967296) as u32, random_tail())
    }

    /// The id with the given timestamp and random bytes.
    pub fn from_parts(timestamp: u32, random: [u8; 8]) -> (r: Self)
        ensures
            r@ == seq![
                (timestamp / 16777216) as u8,
                (timestamp / 65536 % 256) as u8,
                (timestamp / 256 % 256) as u8,
                (timestamp % 256) as u8,
            ] + random@,
            be_u32(r@) == timestamp,
    {
        let bytes: [u8; 12] = [
            (timestamp / 16777216) as u8,
            (timestamp / 65536 % 256) as u8,
            (timestamp / 256 % 256) as u8,
            (timestamp % 256) as u8,
            random[0],
            random[1],
            random[2],
            random[3],
            random[4],
            random[5],
            random[6],
            random[7],
        ];
        let r = ObjectId { bytes };
        assert(r@ =~= seq![
            (timestamp / 16777216) as u8,
            (timestamp / 65536 % 256) as u8,
            (timestamp / 256 % 256) as u8,
            (timestamp % 256) as u8,
        ] + random@);
        r
    }

    pub fn from_bytes(bytes: [u8; 12]) -> (r: Self)
        ensures
            r@ == bytes@,
    {
        ObjectId { bytes }
    }

    pub fn to_bytes(&self) -> (r: [u8; 12])
        ensures
            r@ == self@,
    {
        self.bytes
    }

    /// The id spelled by 24 hex digits of either case.
    pub fn from_hex(s: &str) -> (r: Result<Self, ObjectIdError>)
        ensures
            match r {
                Ok(id) => decodes_to(s@, id@),
                Err(e) => e == ObjectIdError::InvalidHex && !is_hex_of_len(s@, 12),
            },
    {
        match decode_hex(s) {
            Ok(arr) => Ok(ObjectId { bytes: arr }),
            Err(_) => Err(ObjectIdError::InvalidHex),
        }
    }

    /// The 24 lowercase hex digits of the id.
    pub fn to_hex(&self) -> (r: String)
        ensures
            r@ == hex_of(self@),
    {
        encode_hex(&self.bytes)
    }

    /// The creation time in seconds since the Unix epoch.
    pub fn timestamp(&self) -> (r: u32)
        ensures
            r == be_u32(self@),
    {
        let b = &self.bytes;
        (b[0] as u32) * 16777216 + (b[1] as u32) * 65536 + (b[2] as u32) * 256 + (b[3] as u32)
    }
}

/// Hex decoding undoes hex encoding.
pub proof fn lemma_hex_round_trip(b: Seq<u8>)
    ensures
        decodes_to(hex_of(b), b),
{
    let s = hex_of(b);
    assert forall|i: int| 0 <= i < s.len() implies is_hex_char(#[trigger] s[i]) by {
        let d = if i % 2 == 0 { b[i / 2] as int / 16 } else { b[i / 2] as int % 16 };
        assert(0 <= d < 16);
    }
    assert forall|j: int| 0 <= j < b.len() implies #[trigger] b[j] == 16 * hex_value(s[2 * j])
        + hex_value(s[2 * j + 1]) by {
        assert((2 * j) / 2 == j);
        assert((2 * j + 1) / 2 == j);
        assert((2 * j) % 2 == 0);
        assert((2 * j + 1) % 2 == 1);
    }
}

} // verus!
