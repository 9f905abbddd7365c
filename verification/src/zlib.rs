//! Zlib framing for loose objects and pack streams.
//!
//! Compression and decompression are done by the `flate2` crate; what they
//! produce is named by the uninterpreted functions [`deflate_of`] and
//! [`inflate_of`] and never restated. A zlib stream is self-delimiting, so
//! inflating a byte sequence also yields the length of the prefix that
//! formed the stream; the pack decoder resumes right after it.
use vstd::prelude::*;

use crate::errors::GitError;

verus! {

/// The zlib-compressed form of a byte sequence at the default level,
/// named but not defined: it depends on the bytes alone.
pub uninterp spec fn deflate_of(data: Seq<u8>) -> Seq<u8>;

/// What inflating a byte sequence yields: `None` if no well-formed zlib
/// stream starts at its first byte, otherwise the inflated bytes together
/// with the length of the prefix that formed the stream. A function of
/// the bytes alone.
pub uninterp spec fn inflate_of(data: Seq<u8>) -> Option<(Seq<u8>, nat)>;

/// Relies on `flate2::write::ZlibEncoder` at `Compression::default()`:
/// the compressed form of the input, a function of the input bytes
/// alone, and a well-formed zlib stream that inflates back to exactly
/// the input. Writing into a `Vec` cannot fail.
#[verifier::external_body]
fn deflate_bytes(data: &Vec<u8>) -> (r: Vec<u8>)
    ensures
        r@ == deflate_of(data@),
        inflate_of(r@) == Some((data@, r@.len() as nat)),
{
    let mut encoder = flate2::write::ZlibEncoder::new(
        std::vec::Vec::new(),
        flate2::Compression::default(),
    );
    std::io::Write::write_all(&mut encoder, data.as_slice())
        .expect("writing into a Vec cannot fail");
    encoder.finish().expect("writing into a Vec cannot fail")
}

/// Relies on `flate2::bufread::ZlibDecoder` over an in-memory slice:
/// whether a zlib stream starts at the first byte, what it inflates to,
/// and how many bytes it occupies (`total_in`) depend on the input bytes
/// alone.
#[verifier::external_body]
fn inflate_bytes(data: &[u8]) -> (r: Result<(Vec<u8>, usize), GitError>)
    ensures
        match r {
            Ok(p) => inflate_of(data@) == Some((p.0@, p.1 as nat)) && p.1 <= data@.len(),
            Err(e) => inflate_of(data@) is None && e == GitError::Decode,
        },
{
    let mut decoder = flate2::bufread::ZlibDecoder::new(data);
    let mut out = std::vec::Vec::new();
    match std::io::Read::read_to_end(&mut decoder, &mut out) {
        Ok(_) => {
            let used = decoder.total_in() as usize;
            Ok((out, used))
        }
        Err(_) => Err(GitError::Decode),
    }
}

/// Compresses an object's framed bytes for storage on disk. What comes
/// back decompresses to exactly the input, so a loose object file
/// written from this round-trips through [`decompress_object`].
pub fn compress_object(data: &Vec<u8>) -> (r: Vec<u8>)
    ensures
        r@ == deflate_of(data@),
        inflate_of(r@) == Some((data@, r@.len() as nat)),
{
    deflate_bytes(data)
}

/// Decompresses a loose object file back into its framed bytes. The whole
/// input must be one zlib stream; trailing garbage is rejected.
pub fn decompress_object(data: &Vec<u8>) -> (r: Result<Vec<u8>, GitError>)
    ensures
        match r {
            Ok(out) => inflate_of(data@) == Some((out@, data@.len() as nat)),
            Err(e) => {
                &&& (e == GitError::Decode || e == GitError::Integrity)
                &&& (inflate_of(data@) matches Some(p) ==> p.1 != data@.len())
            },
        },
{
    let (out, used) = inflate_bytes(data.as_slice())?;
    if used != data.len() {
        return Err(GitError::Integrity);
    }
    Ok(out)
}

/// Inflates the zlib stream that starts at `from` in `data` and reports
/// how many compressed bytes it occupied.
pub fn decompress_at(data: &Vec<u8>, from: usize) -> (r: Result<(Vec<u8>, usize), GitError>)
    requires
        from <= data@.len(),
    ensures
        match r {
            Ok(p) => {
                &&& inflate_of(data@.skip(from as int)) == Some((p.0@, p.1 as nat))
                &&& from + p.1 <= data@.len()
            },
            Err(e) => inflate_of(data@.skip(from as int)) is None && e == GitError::Decode,
        },
{
    let tail = vstd::slice::slice_subrange(data.as_slice(), from, data.len());
    let (out, used) = inflate_bytes(tail)?;
    Ok((out, used))
}

} // verus!
