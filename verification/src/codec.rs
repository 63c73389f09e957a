//! Encoding of typed keys and values to the raw bytes that the store holds.
//!
//! Keys are 64-bit integers laid out as eight little-endian bytes, so equal
//! keys give equal bytes and distinct keys give distinct bytes. String values
//! go through the binary codec of the `bincode` crate, whose output is a
//! function of the characters alone.

use vstd::prelude::*;

verus! {

/// The eight little-endian bytes that encode a 64-bit key.
pub open spec fn key_bytes(k: u64) -> Seq<u8> {
    seq![
        (k & 0xff) as u8,
        ((k >> 8) & 0xff) as u8,
        ((k >> 16) & 0xff) as u8,
        ((k >> 24) & 0xff) as u8,
        ((k >> 32) & 0xff) as u8,
        ((k >> 40) & 0xff) as u8,
        ((k >> 48) & 0xff) as u8,
        ((k >> 56) & 0xff) as u8,
    ]
}

/// The 64-bit key read back from eight little-endian bytes.
pub open spec fn key_of_bytes(b: Seq<u8>) -> u64
    recommends
        b.len() == 8,
{
    (b[0] as u64) | ((b[1] as u64) << 8) | ((b[2] as u64) << 16) | ((b[3] as u64) << 24)
        | ((b[4] as u64) << 32) | ((b[5] as u64) << 40) | ((b[6] as u64) << 48) | (
    (b[7] as u64) << 56)
}

/// Reading the little-endian bytes of a key gives the key back.
pub proof fn lemma_key_bytes_round_trip(k: u64)
    ensures
        key_of_bytes(key_bytes(k)) == k,
{
    assert(((k & 0xff) as u64) | ((((k >> 8) & 0xff) as u64) << 8) | ((((k >> 16) & 0xff)
        as u64) << 16) | ((((k >> 24) & 0xff) as u64) << 24) | ((((k >> 32) & 0xff) as u64) << 32)
        | ((((k >> 40) & 0xff) as u64) << 40) | ((((k >> 48) & 0xff) as u64) << 48) | ((((k >> 56)
        & 0xff) as u64) << 56) == k) by (bit_vector);
    assert((((k & 0xff) as u8) as u64) == ((k & 0xff) as u64)) by (bit_vector);
    assert(((((k >> 8) & 0xff) as u8) as u64) == (((k >> 8) & 0xff) as u64)) by (bit_vector);
    assert(((((k >> 16) & 0xff) as u8) as u64) == (((k >> 16) & 0xff) as u64)) by (bit_vector);
    assert(((((k >> 24) & 0xff) as u8) as u64) == (((k >> 24) & 0xff) as u64)) by (bit_vector);
    assert(((((k >> 32) & 0xff) as u8) as u64) == (((k >> 32) & 0xff) as u64)) by (bit_vector);
    assert(((((k >> 40) & 0xff) as u8) as u64) == (((k >> 40) & 0xff) as u64)) by (bit_vector);
    assert(((((k >> 48) & 0xff) as u8) as u64) == (((k >> 48) & 0xff) as u64)) by (bit_vector);
    assert(((((k >> 56) & 0xff) as u8) as u64) == (((k >> 56) & 0xff) as u64)) by (bit_vector);
}

/// Re-encoding the key read from eight bytes gives the same bytes back.
pub proof fn lemma_bytes_key_round_trip(b: Seq<u8>)
    requires
        b.len() == 8,
    ensures
        key_bytes(key_of_bytes(b)) == b,
{
    let b0 = b[0] as u64;
    let b1 = b[1] as u64;
    let b2 = b[2] as u64;
    let b3 = b[3] as u64;
    let b4 = b[4] as u64;
    let b5 = b[5] as u64;
    let b6 = b[6] as u64;
    let b7 = b[7] as u64;
    let k = key_of_bytes(b);
    assert(b0 < 256 && b1 < 256 && b2 < 256 && b3 < 256 && b4 < 256 && b5 < 256 && b6 < 256 && b7
        < 256);
    assert({
        let k2 = b0 | (b1 << 8) | (b2 << 16) | (b3 << 24) | (b4 << 32) | (b5 << 40) | (b6 << 48)
            | (b7 << 56);
        b0 < 256 && b1 < 256 && b2 < 256 && b3 < 256 && b4 < 256 && b5 < 256 && b6 < 256 && b7
            < 256 ==> (k2 & 0xff) == b0 && ((k2 >> 8) & 0xff) == b1 && ((k2 >> 16) & 0xff) == b2
            && ((k2 >> 24) & 0xff) == b3 && ((k2 >> 32) & 0xff) == b4 && ((k2 >> 40) & 0xff) == b5
            && ((k2 >> 48) & 0xff) == b6 && ((k2 >> 56) & 0xff) == b7
    }) by (bit_vector);
    assert(key_bytes(k) =~= b);
}

/// Distinct keys encode to distinct bytes.
pub proof fn lemma_key_bytes_injective(k1: u64, k2: u64)
    requires
        key_bytes(k1) == key_bytes(k2),
    ensures
        k1 == k2,
{
    lemma_key_bytes_round_trip(k1);
    lemma_key_bytes_round_trip(k2);
}

/// Encodes a key to its eight little-endian bytes.
pub fn encode_key(k: u64) -> (r: Vec<u8>)
    ensures
        r@ == key_bytes(k),
{
    let mut bytes: Vec<u8> = Vec::new();
    bytes.push((k & 0xff) as u8);
    bytes.push(((k >> 8) & 0xff) as u8);
    bytes.push(((k >> 16) & 0xff) as u8);
    bytes.push(((k >> 24) & 0xff) as u8);
    bytes.push(((k >> 32) & 0xff) as u8);
    bytes.push(((k >> 40) & 0xff) as u8);
    bytes.push(((k >> 48) & 0xff) as u8);
    bytes.push(((k >> 56) & 0xff) as u8);
    proof {
        assert(bytes@ =~= key_bytes(k));
    }
    bytes
}

/// Reads a key back from eight little-endian bytes starting at `offset`.
pub fn decode_key(raw: &Vec<u8>, offset: usize) -> (r: u64)
    requires
        offset + 8 <= raw@.len(),
    ensures
        r == key_of_bytes(raw@.subrange(offset as int, offset + 8)),
{
    let len = raw.len();
    proof {
        assert(offset + 8 <= len);
    }
    let b0 = raw[offset] as u64;
    let b1 = raw[offset + 1] as u64;
    let b2 = raw[offset + 2] as u64;
    let b3 = raw[offset + 3] as u64;
    let b4 = raw[offset + 4] as u64;
    let b5 = raw[offset + 5] as u64;
    let b6 = raw[offset + 6] as u64;
    let b7 = raw[offset + 7] as u64;
    proof {
        let s = raw@.subrange(offset as int, offset + 8);
        assert(s[0] == raw@[offset as int]);
        assert(s[1] == raw@[offset + 1]);
        assert(s[2] == raw@[offset + 2]);
        assert(s[3] == raw@[offset + 3]);
        assert(s[4] == raw@[offset + 4]);
        assert(s[5] == raw@[offset + 5]);
        assert(s[6] == raw@[offset + 6]);
        assert(s[7] == raw@[offset + 7]);
    }
    b0 | (b1 << 8) | (b2 << 16) | (b3 << 24) | (b4 << 32) | (b5 << 40) | (b6 << 48) | (b7 << 56)
}

#[verifier::external_type_specification]
#[verifier::external_body]
pub struct ExBincodeErrorKind(bincode::ErrorKind);

/// The bytes that the binary codec produces for a string value; a function of
/// the characters alone.
pub uninterp spec fn value_bytes(s: Seq<char>) -> Seq<u8>;

/// What the binary codec recovers from raw bytes: the decoded string, or
/// nothing when the bytes are not a valid encoding of any string.
pub uninterp spec fn decoded_value(b: Seq<u8>) -> Option<Seq<char>>;

/// Relies on bincode::serialize: the encoding of a string is a deterministic
/// function of its characters, and bincode::deserialize recovers the string
/// from it. Serializing a string cannot fail: it writes a fixed-width length
/// and the UTF-8 bytes into a vector, under no size limit.
#[verifier::external_body]
pub(crate) fn encode_value(v: &String) -> (r: Result<Vec<u8>, bincode::Error>)
    ensures
        r is Ok,
        r matches Ok(b) ==> b@ == value_bytes(v@) && decoded_value(b@) == Some(v@),
{
    bincode::serialize(v)
}

/// Relies on bincode::deserialize: whether raw bytes decode, and to what, is a
/// function of the bytes alone.
#[verifier::external_body]
pub(crate) fn decode_value(b: &Vec<u8>) -> (r: Result<String, bincode::Error>)
    ensures
        r matches Ok(v) ==> decoded_value(b@) == Some(v@),
        r is Err ==> decoded_value(b@) is None,
{
    bincode::deserialize(b)
}

} // verus!
