//! Length prefixes: an unsigned length up to 65535 as two big-endian bytes.

use byteorder::BigEndian;
use byteorder::ByteOrder;
use vstd::prelude::*;

use crate::error::Error;

verus! {

/// The longest payload a field can carry.
pub const MAX_FIELD_LEN: usize = 65535;

/// The length that the prefix bytes `hi`, `lo` announce.
pub open spec fn prefix_value(hi: u8, lo: u8) -> int {
    hi as int * 256 + lo as int
}

/// The two prefix bytes that announce the length `n`, high byte first.
pub open spec fn length_prefix(n: int) -> Seq<u8> {
    seq![(n / 256) as u8, (n % 256) as u8]
}

/// A payload with its length prefix in front: one field on the wire.
pub open spec fn framed(payload: Seq<u8>) -> Seq<u8> {
    length_prefix(payload.len() as int) + payload
}

/// The two zero bytes that close a document.
pub open spec fn terminator() -> Seq<u8> {
    seq![0u8, 0u8]
}

/// The text of the failure raised for a length above `MAX_FIELD_LEN`.
pub open spec fn too_long_text() -> Seq<char> {
    "Key length in response too long"@
}

/// `byteorder::ByteOrder::write_u16` of `BigEndian`, on a fresh two-byte
/// buffer: the high byte of `n`, then its low byte.
#[verifier::external_body]
fn write_u16_be(n: u16) -> (bytes: [u8; 2])
    ensures
        bytes@ == length_prefix(n as int),
{
    let mut bytes: [u8; 2] = [0, 0];
    BigEndian::write_u16(&mut bytes, n);
    bytes
}

/// `byteorder::ByteOrder::read_u16` of `BigEndian`: the first byte counts
/// 256, the second counts 1.
#[verifier::external_body]
fn read_u16_be(bytes: &[u8; 2]) -> (n: u16)
    ensures
        n as int == prefix_value(bytes[0], bytes[1]),
{
    BigEndian::read_u16(bytes)
}

/// The length prefix for a payload of `integer` bytes. A length that does not
/// fit in two bytes is refused.
pub fn usize_to_bytes(integer: usize) -> (result: Result<[u8; 2], Error>)
    ensures
        integer <= MAX_FIELD_LEN ==> (result matches Ok(bytes) && bytes@ == length_prefix(
            integer as int,
        )),
        integer > MAX_FIELD_LEN ==> (result matches Err(Error::Message(message)) && message@
            == too_long_text()),
{
    if integer > MAX_FIELD_LEN {
        return Err(Error::Message(String::from_str("Key length in response too long")));
    }
    Ok(write_u16_be(integer as u16))
}

/// The length that a two-byte prefix announces. Every pair of bytes is a
/// valid prefix.
pub fn bytes_to_length(bytes: &[u8; 2]) -> (length: u16)
    ensures
        length as int == prefix_value(bytes[0], bytes[1]),
{
    read_u16_be(bytes)
}

/// Reading back the prefix written for a length gives that length.
pub proof fn lemma_prefix_round_trip(n: int)
    requires
        0 <= n <= MAX_FIELD_LEN,
    ensures
        length_prefix(n).len() == 2,
        prefix_value(length_prefix(n)[0], length_prefix(n)[1]) == n,
{
}

/// Writing the prefix for the length that two bytes announce gives those
/// two bytes.
pub proof fn lemma_prefix_unique(hi: u8, lo: u8)
    ensures
        0 <= prefix_value(hi, lo) <= MAX_FIELD_LEN,
        length_prefix(prefix_value(hi, lo)) == seq![hi, lo],
{
}

} // verus!
