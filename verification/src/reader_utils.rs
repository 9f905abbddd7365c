//! Framed reads over an in-memory byte source.
//!
//! A [`ByteReader`] is a byte buffer with a cursor. The four readers here
//! mirror the framing units of the object and wire formats: exact-N,
//! single byte, until-NUL (as UTF-8 text), and pkt-line.
use vstd::prelude::*;
use vstd::string::StringSliceAdditionalSpecFns;
use vstd::utf8::{decode_utf8, encode_utf8, valid_utf8};

use crate::errors::GitError;

verus! {

/// A byte buffer with a read cursor.
pub struct ByteReader {
    pub data: Vec<u8>,
    pub pos: usize,
}

impl ByteReader {
    /// A reader positioned at the start of `data`.
    pub fn new(data: Vec<u8>) -> (r: ByteReader)
        ensures
            r.data == data,
            r.pos == 0,
    {
        ByteReader { data, pos: 0 }
    }
}

/// No NUL byte occurs in `s[from..to]`.
pub open spec fn no_nul(s: Seq<u8>, from: int, to: int) -> bool {
    forall|j: int| from <= j < to ==> s[j] != 0
}

/// `k` is the position of the first NUL byte at or after `from`.
pub open spec fn first_nul_at(s: Seq<u8>, from: int, k: int) -> bool {
    &&& from <= k < s.len()
    &&& s[k] == 0
    &&& no_nul(s, from, k)
}

/// Produces exactly the next `n` bytes, or fails with the reader unmoved
/// when fewer remain.
pub fn read_n_bytes(n: usize, reader: &mut ByteReader) -> (r: Result<Vec<u8>, GitError>)
    ensures
        final(reader).data == old(reader).data,
        match r {
            Ok(v) => {
                &&& old(reader).pos + n <= old(reader).data@.len()
                &&& v@ == old(reader).data@.subrange(
                    old(reader).pos as int,
                    old(reader).pos + n,
                )
                &&& final(reader).pos == old(reader).pos + n
            },
            Err(e) => {
                &&& e == GitError::Io
                &&& old(reader).pos + n > old(reader).data@.len()
                &&& final(reader).pos == old(reader).pos
            },
        },
{
    if reader.pos > reader.data.len() || n > reader.data.len() - reader.pos {
        return Err(GitError::Io);
    }
    let s = vstd::slice::slice_subrange(reader.data.as_slice(), reader.pos, reader.pos + n);
    let v = vstd::slice::slice_to_vec(s);
    reader.pos = reader.pos + n;
    Ok(v)
}

/// Produces the next byte, or fails with the reader unmoved at the end of
/// the buffer.
pub fn read_byte(reader: &mut ByteReader) -> (r: Result<u8, GitError>)
    ensures
        final(reader).data == old(reader).data,
        match r {
            Ok(b) => {
                &&& old(reader).pos < old(reader).data@.len()
                &&& b == old(reader).data@[old(reader).pos as int]
                &&& final(reader).pos == old(reader).pos + 1
            },
            Err(e) => {
                &&& e == GitError::Io
                &&& old(reader).pos >= old(reader).data@.len()
                &&& final(reader).pos == old(reader).pos
            },
        },
{
    if reader.pos >= reader.data.len() {
        return Err(GitError::Io);
    }
    let b = reader.data[reader.pos];
    reader.pos = reader.pos + 1;
    Ok(b)
}

/// Declares `core::str::Utf8Error`, the error of `str::from_utf8`, so
/// that it can appear in a result type.
#[verifier::external_type_specification]
#[verifier::external_body]
pub struct ExUtf8Error(core::str::Utf8Error);

/// Relies on `str::from_utf8`: succeeds exactly on well-formed UTF-8 and
/// then views the same bytes as text.
pub assume_specification[ core::str::from_utf8 ](v: &[u8]) -> (r: Result<&str, core::str::Utf8Error>)
    ensures
        match r {
            Ok(s) => valid_utf8(v@) && s.spec_bytes() == v@,
            Err(_) => !valid_utf8(v@),
        },
;

/// Converts bytes to an owned string, failing on malformed UTF-8.
pub(crate) fn bytes_to_string(v: &[u8]) -> (r: Result<String, GitError>)
    ensures
        match r {
            Ok(s) => {
                &&& valid_utf8(v@)
                &&& encode_utf8(s@) == v@
                &&& s@ == decode_utf8(v@)
            },
            Err(e) => e == GitError::Decode && !valid_utf8(v@),
        },
{
    match core::str::from_utf8(v) {
        Ok(s) => {
            proof {
                vstd::utf8::encode_utf8_decode_utf8(s@);
            }
            Ok(s.to_owned())
        }
        Err(_) => Err(GitError::Decode),
    }
}

/// Reads up to, and consumes, the next NUL byte; what precedes it is
/// returned as text. Fails with the reader unmoved when no NUL remains
/// (`Io`) or when the bytes are not UTF-8 (`Decode`).
pub fn read_to_next_null_byte(reader: &mut ByteReader) -> (r: Result<String, GitError>)
    ensures
        final(reader).data == old(reader).data,
        match r {
            Ok(s) => {
                &&& first_nul_at(old(reader).data@, old(reader).pos as int, final(reader).pos - 1)
                &&& encode_utf8(s@) == old(reader).data@.subrange(
                    old(reader).pos as int,
                    final(reader).pos - 1,
                )
                &&& s@ == decode_utf8(
                    old(reader).data@.subrange(old(reader).pos as int, final(reader).pos - 1),
                )
            },
            Err(e) => {
                &&& final(reader).pos == old(reader).pos
                &&& e == GitError::Io || e == GitError::Decode
                &&& e == GitError::Io ==> no_nul(
                    old(reader).data@,
                    old(reader).pos as int,
                    old(reader).data@.len() as int,
                )
                &&& e == GitError::Decode ==> exists|k: int|
                    first_nul_at(old(reader).data@, old(reader).pos as int, k)
                        && !valid_utf8(
                        old(reader).data@.subrange(old(reader).pos as int, k),
                    )
            },
        },
{
    let start = reader.pos;
    if start > reader.data.len() {
        return Err(GitError::Io);
    }
    let mut k = start;
    while k < reader.data.len() && reader.data[k] != 0
        invariant
            start <= k <= reader.data@.len(),
            no_nul(reader.data@, start as int, k as int),
        decreases reader.data@.len() - k,
    {
        k = k + 1;
    }
    if k == reader.data.len() {
        return Err(GitError::Io);
    }
    let s = vstd::slice::slice_subrange(reader.data.as_slice(), start, k);
    match bytes_to_string(s) {
        Ok(text) => {
            reader.pos = k + 1;
            Ok(text)
        }
        Err(e) => {
            proof {
                assert(first_nul_at(reader.data@, start as int, k as int));
            }
            Err(e)
        },
    }
}

/// Produces everything from the cursor to the end of the buffer and
/// leaves the cursor there.
pub fn read_rest(reader: &mut ByteReader) -> (r: Vec<u8>)
    ensures
        final(reader).data == old(reader).data,
        old(reader).pos <= old(reader).data@.len() ==> {
            &&& r@ == old(reader).data@.subrange(
                old(reader).pos as int,
                old(reader).data@.len() as int,
            )
            &&& final(reader).pos == old(reader).data@.len()
        },
        old(reader).pos > old(reader).data@.len() ==> {
            &&& r@ == Seq::<u8>::empty()
            &&& final(reader).pos == old(reader).pos
        },
{
    if reader.pos > reader.data.len() {
        return Vec::new();
    }
    let s = vstd::slice::slice_subrange(reader.data.as_slice(), reader.pos, reader.data.len());
    let v = vstd::slice::slice_to_vec(s);
    reader.pos = reader.data.len();
    v
}

/// `b` is an ASCII hex digit.
pub open spec fn is_hex_byte(b: u8) -> bool {
    (0x30 <= b <= 0x39) || (0x61 <= b <= 0x66) || (0x41 <= b <= 0x46)
}

/// The value of an ASCII hex digit.
pub open spec fn hex_byte_val(b: u8) -> nat {
    if 0x30 <= b <= 0x39 {
        (b - 0x30) as nat
    } else if 0x61 <= b <= 0x66 {
        (b - 0x61 + 10) as nat
    } else if 0x41 <= b <= 0x46 {
        (b - 0x41 + 10) as nat
    } else {
        0
    }
}

/// The length a pkt-line declares: the value of four hex digits.
pub open spec fn pkt_len(s: Seq<u8>, at: int) -> nat {
    hex_byte_val(s[at]) * 4096 + hex_byte_val(s[at + 1]) * 256 + hex_byte_val(s[at + 2]) * 16
        + hex_byte_val(s[at + 3])
}

/// All four length digits of a pkt-line at `at` are hex.
pub open spec fn pkt_digits_ok(s: Seq<u8>, at: int) -> bool {
    &&& at + 4 <= s.len()
    &&& is_hex_byte(s[at])
    &&& is_hex_byte(s[at + 1])
    &&& is_hex_byte(s[at + 2])
    &&& is_hex_byte(s[at + 3])
}

/// The value of one ASCII hex digit, or `None` for any other byte.
fn hex_byte_value(b: u8) -> (r: Option<u8>)
    ensures
        match r {
            Some(v) => is_hex_byte(b) && v == hex_byte_val(b),
            None => !is_hex_byte(b),
        },
{
    if 0x30 <= b && b <= 0x39 {
        Some(b - 0x30)
    } else if 0x61 <= b && b <= 0x66 {
        Some(b - 0x61 + 10)
    } else if 0x41 <= b && b <= 0x46 {
        Some(b - 0x41 + 10)
    } else {
        None
    }
}

/// Reads one pkt-line: a four-hex-digit length, then `length - 4` payload
/// bytes. A declared length of four or less is a flush or delimiter and
/// yields `None`. Fails with `Decode` on a non-hex digit and `Io` when
/// the buffer ends early, the reader unmoved.
pub fn read_git_pack_line(reader: &mut ByteReader) -> (r: Result<Option<Vec<u8>>, GitError>)
    ensures
        final(reader).data == old(reader).data,
        match r {
            Ok(opt) => {
                &&& pkt_digits_ok(old(reader).data@, old(reader).pos as int)
                &&& match opt {
                    None => {
                        &&& pkt_len(old(reader).data@, old(reader).pos as int) <= 4
                        &&& final(reader).pos == old(reader).pos + 4
                    },
                    Some(v) => {
                        &&& pkt_len(old(reader).data@, old(reader).pos as int) > 4
                        &&& old(reader).pos + pkt_len(old(reader).data@, old(reader).pos as int)
                            <= old(reader).data@.len()
                        &&& v@ == old(reader).data@.subrange(
                            old(reader).pos + 4,
                            old(reader).pos + pkt_len(old(reader).data@, old(reader).pos as int),
                        )
                        &&& final(reader).pos == old(reader).pos + pkt_len(
                            old(reader).data@,
                            old(reader).pos as int,
                        )
                    },
                }
            },
            Err(e) => {
                &&& final(reader).pos == old(reader).pos
                &&& e == GitError::Io || e == GitError::Decode
                &&& e == GitError::Decode ==> old(reader).pos + 4 <= old(reader).data@.len()
                    && !pkt_digits_ok(old(reader).data@, old(reader).pos as int)
                &&& e == GitError::Io ==> old(reader).pos + 4 > old(reader).data@.len() || (
                pkt_digits_ok(old(reader).data@, old(reader).pos as int) && old(reader).pos
                    + pkt_len(old(reader).data@, old(reader).pos as int)
                    > old(reader).data@.len())
            },
        },
{
    let p = reader.pos;
    if p > reader.data.len() || reader.data.len() - p < 4 {
        return Err(GitError::Io);
    }
    let d0 = hex_byte_value(reader.data[p]);
    let d1 = hex_byte_value(reader.data[p + 1]);
    let d2 = hex_byte_value(reader.data[p + 2]);
    let d3 = hex_byte_value(reader.data[p + 3]);
    let (v0, v1, v2, v3) = match (d0, d1, d2, d3) {
        (Some(v0), Some(v1), Some(v2), Some(v3)) => (v0, v1, v2, v3),
        _ => {
            return Err(GitError::Decode);
        },
    };
    let length: usize = v0 as usize * 4096 + v1 as usize * 256 + v2 as usize * 16 + v3 as usize;
    if length <= 4 {
        reader.pos = p + 4;
        return Ok(None);
    }
    if length - 4 > reader.data.len() - (p + 4) {
        return Err(GitError::Io);
    }
    let s = vstd::slice::slice_subrange(reader.data.as_slice(), p + 4, p + length);
    let v = vstd::slice::slice_to_vec(s);
    reader.pos = p + length;
    Ok(Some(v))
}

} // verus!
