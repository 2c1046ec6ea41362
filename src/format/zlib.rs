use std::io::Read;
use vstd::prelude::*;

use crate::error::FormatError;

verus! {

/// What flate2's zlib decoder makes of `data`, read to its end: the
/// inflated bytes, or `None` where the stream is corrupt or incomplete.
pub uninterp spec fn zlib_inflate(data: Seq<u8>) -> Option<Seq<u8>>;

/// Relies on `flate2::read::ZlibDecoder` read with `Read::read_to_end`: the
/// outcome depends on the input bytes alone.
#[verifier::external_body]
fn inflate(data: &[u8]) -> (r: Option<Vec<u8>>)
    ensures
        option_bytes(r) == zlib_inflate(data@),
{
    let mut out: Vec<u8> = Vec::new();
    match flate2::read::ZlibDecoder::new(data).read_to_end(&mut out) {
        Ok(_) => Some(out),
        Err(_) => None,
    }
}

/// The bytes that an optional buffer holds.
pub open spec fn option_bytes(o: Option<Vec<u8>>) -> Option<Seq<u8>> {
    match o {
        Some(v) => Some(v@),
        None => None,
    }
}

/// The bytes that a result holds.
pub open spec fn result_bytes(r: Result<Vec<u8>, FormatError>) -> Result<Seq<u8>, FormatError> {
    match r {
        Ok(v) => Ok(v@),
        Err(e) => Err(e),
    }
}

/// Whether a payload is a zlib member: at least five bytes, the first two
/// of them `ZL`.
pub open spec fn is_zlib_member_spec(b: Seq<u8>) -> bool {
    b.len() >= 5 && b[0] == 0x5a && b[1] == 0x4c
}

/// The decompressed size that a zlib member declares, little-endian in its
/// bytes 2 to 4.
pub open spec fn declared_size(b: Seq<u8>) -> nat {
    (b[2] + 256 * b[3] + 65536 * b[4]) as nat
}

/// The outcome of a decompression that declared `declared` bytes and
/// inflated to `inflated`: the bytes where their number is the one
/// declared, else `TruncatedZlib`.
pub open spec fn member_result(declared: nat, inflated: Option<Seq<u8>>) -> Result<
    Seq<u8>,
    FormatError,
> {
    match inflated {
        Some(v) => if v.len() == declared {
            Ok(v)
        } else {
            Err(FormatError::TruncatedZlib)
        },
        None => Err(FormatError::TruncatedZlib),
    }
}

/// What the zlib member `b` decompresses to.
pub open spec fn decompress_spec(b: Seq<u8>) -> Result<Seq<u8>, FormatError> {
    member_result(declared_size(b), zlib_inflate(b.subrange(5, b.len() as int)))
}

/// Whether `b` is a zlib member.
pub fn is_zlib_member(b: &[u8]) -> (r: bool)
    ensures
        r == is_zlib_member_spec(b@),
{
    b.len() >= 5 && b[0] == 0x5a && b[1] == 0x4c
}

/// The decompressed size that the zlib member `b` declares.
pub fn read_declared_size(b: &[u8]) -> (r: u32)
    requires
        b@.len() >= 5,
    ensures
        r == declared_size(b@),
{
    b[2] as u32 + b[3] as u32 * 256 + b[4] as u32 * 65536
}

/// Accepts what a zlib stream inflated to only where it has exactly the
/// declared size: never a truncated or padded result.
pub fn check_inflated(declared: u32, inflated: Option<Vec<u8>>) -> (r: Result<Vec<u8>, FormatError>)
    ensures
        result_bytes(r) == member_result(declared as nat, option_bytes(inflated)),
{
    match inflated {
        Some(v) => if v.len() as u64 == declared as u64 {
            Ok(v)
        } else {
            Err(FormatError::TruncatedZlib)
        },
        None => Err(FormatError::TruncatedZlib),
    }
}

/// Decompresses the zlib member `b`.
pub fn decompress_member(b: &[u8]) -> (r: Result<Vec<u8>, FormatError>)
    requires
        is_zlib_member_spec(b@),
    ensures
        result_bytes(r) == decompress_spec(b@),
        r matches Ok(v) ==> v@.len() == declared_size(b@),
{
    let declared = read_declared_size(b);
    let stream = &b[5..b.len()];
    check_inflated(declared, inflate(stream))
}

} // verus!
