//! Object identity: SHA-1 digests and their lowercase hex form.
//!
//! The digest itself comes from the `sha1` crate; everything said about it
//! here is said through the uninterpreted function [`sha1_of`]. The hex
//! encoding is specified exactly.
use vstd::prelude::*;

verus! {

/// The 20-byte SHA-1 digest of a byte sequence, named but not defined:
/// it depends on the bytes alone.
pub uninterp spec fn sha1_of(data: Seq<u8>) -> Seq<u8>;

/// Relies on `sha1::Sha1` (through `digest::Digest::digest`): the 20-byte
/// SHA-1 digest of the input, a function of the input bytes alone.
#[verifier::external_body]
pub fn hash_data(data: &Vec<u8>) -> (r: Vec<u8>)
    ensures
        r@ == sha1_of(data@),
        r@.len() == 20,
{
    <sha1::Sha1 as sha1::Digest>::digest(data.as_slice()).to_vec()
}

/// The lowercase hex digit for a value below 16.
pub open spec fn hex_digit(n: u8) -> char {
    if n < 10 {
        ((n + 0x30) as u8) as char
    } else {
        ((n + 0x57) as u8) as char
    }
}

/// The lowercase hex encoding of a byte sequence: two digits per byte,
/// high nibble first.
pub open spec fn hex_of(data: Seq<u8>) -> Seq<char>
    decreases data.len(),
{
    if data.len() == 0 {
        Seq::empty()
    } else {
        seq![hex_digit(data[0] / 16), hex_digit(data[0] % 16)] + hex_of(data.drop_first())
    }
}

/// Relies on `hex::encode`: lowercase hex, exactly two digits per input
/// byte, high nibble first.
#[verifier::external_body]
pub fn to_hex(data: &Vec<u8>) -> (r: String)
    ensures
        r@ == hex_of(data@),
{
    hex::encode(data.as_slice())
}

/// Hex encodings are twice as long as their input and consist of
/// lowercase hex digits, which are ASCII.
pub proof fn lemma_hex_of_shape(data: Seq<u8>)
    ensures
        hex_of(data).len() == 2 * data.len(),
        forall|i: int|
            0 <= i < hex_of(data).len() ==> '0' <= #[trigger] hex_of(data)[i] <= 'f',
    decreases data.len(),
{
    if data.len() > 0 {
        lemma_hex_of_shape(data.drop_first());
    }
}

} // verus!
