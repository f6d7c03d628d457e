//! The compression codec, an XZ (LZMA) implementation from outside this
//! crate, and what this library assumes of it.
use vstd::prelude::*;

verus! {

/// What the XZ decoder makes of `b` when it succeeds.
pub uninterp spec fn xz_decoded(b: Seq<u8>) -> Seq<u8>;

/// Whether the XZ decoder accepts `b`: it depends on the bytes alone.
pub uninterp spec fn xz_decodes(b: Seq<u8>) -> bool;

#[verifier::external_type_specification]
#[verifier::external_body]
pub struct ExLzmaError(lzma::LzmaError);

/// Relies on `lzma::compress`: at a preset from 0 to 9 it encodes `buf` as
/// one XZ stream, failing only where memory cannot be had (as a Rust
/// allocation would abort), and the stream it returns decodes back to `buf`.
#[verifier::external_body]
pub(crate) fn compress(buf: &[u8], preset: u32) -> (r: Result<Vec<u8>, lzma::LzmaError>)
    requires
        preset <= 9,
    ensures
        r is Ok,
        xz_decodes(r->Ok_0@),
        xz_decoded(r->Ok_0@) == buf@,
{
    lzma::compress(buf, preset)
}

/// Relies on `lzma::decompress`: a decoder with no memory limit, which
/// succeeds exactly on the streams it accepts, and then returns their
/// decoding; both depend on `buf` alone.
#[verifier::external_body]
pub(crate) fn decompress(buf: &[u8]) -> (r: Result<Vec<u8>, lzma::LzmaError>)
    ensures
        r is Ok <==> xz_decodes(buf@),
        r is Ok ==> r->Ok_0@ == xz_decoded(buf@),
{
    lzma::decompress(buf)
}

} // verus!
