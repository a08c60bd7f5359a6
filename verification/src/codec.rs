//! Compression of objects at rest: the zlib stream format at the default
//! level, through the `flate2` crate.

use vstd::prelude::*;
use crate::error::StoreError;

verus! {

/// What `flate2` makes of `data` at the default level: the zlib stream that
/// it writes, or nothing where its encoder reports a failure.
pub uninterp spec fn zlib_deflated(data: Seq<u8>) -> Option<Seq<u8>>;

/// What `flate2` reads out of the zlib stream `stream`, if it is one.
pub uninterp spec fn zlib_inflated(stream: Seq<u8>) -> Option<Seq<u8>>;

/// `std::io::Error`, in which `flate2` reports its failures. It is carried
/// from the call to where it is named; nothing is read out of it.
#[verifier::external_type_specification]
#[verifier::external_body]
pub struct ExIoError(std::io::Error);

/// `flate2::write::ZlibEncoder` over a `Vec`, fed all of `data` and finished.
/// Taken on trust: the encoder writes into memory, so whether it succeeds
/// and what it writes depend on `data` alone, and the decoder reads `data`
/// back out of the stream. The encoder can report a failure as
/// `std::io::Error`; on which data it does is left to the name.
#[verifier::external_body]
fn deflate(data: &[u8]) -> (out: Result<Vec<u8>, std::io::Error>)
    ensures
        out is Ok <==> zlib_deflated(data@) is Some,
        out matches Ok(stream) ==> zlib_deflated(data@) == Some(stream@) && zlib_inflated(stream@)
            == Some(data@),
{
    let mut encoder = flate2::write::ZlibEncoder::new(Vec::new(), flate2::Compression::default());
    std::io::Write::write_all(&mut encoder, data)?;
    encoder.finish()
}

/// `flate2::read::ZlibDecoder` over `stream`, read to its end. Taken on
/// trust: whether it succeeds and what it yields depend on `stream` alone.
#[verifier::external_body]
fn inflate(stream: &[u8]) -> (out: Result<Vec<u8>, std::io::Error>)
    ensures
        out is Ok <==> zlib_inflated(stream@) is Some,
        out matches Ok(data) ==> zlib_inflated(stream@) == Some(data@),
{
    let mut decoder = flate2::read::ZlibDecoder::new(stream);
    let mut data = Vec::new();
    std::io::Read::read_to_end(&mut decoder, &mut data)?;
    Ok(data)
}

/// What compressing `data` gives: the stream that the encoder writes, or
/// `Io` where the encoder reports a failure.
pub open spec fn compressed(data: Seq<u8>) -> Result<Seq<u8>, StoreError> {
    match zlib_deflated(data) {
        Some(stream) => Ok(stream),
        None => Err(StoreError::Io),
    }
}

/// What decompressing `stream` gives: the bytes it holds, or `CorruptObject`
/// where it is not a valid compressed stream.
pub open spec fn decompressed(stream: Seq<u8>) -> Result<Seq<u8>, StoreError> {
    match zlib_inflated(stream) {
        Some(data) => Ok(data),
        None => Err(StoreError::CorruptObject),
    }
}

/// The result of a compression in the library's own terms: the stream as it
/// came, or `Io` for a failure of the compressor.
pub fn compressed_or_io(outcome: Result<Vec<u8>, std::io::Error>) -> (out: Result<
    Vec<u8>,
    StoreError,
>)
    ensures
        match outcome {
            Ok(stream) => out matches Ok(kept) && kept@ == stream@,
            Err(_) => out == Err::<Vec<u8>, StoreError>(StoreError::Io),
        },
{
    match outcome {
        Ok(stream) => Ok(stream),
        Err(_) => Err(StoreError::Io),
    }
}

/// The result of a decompression in the library's own terms: the bytes as
/// they came, or `CorruptObject` for a stream that could not be read.
pub fn inflated_or_corrupt(outcome: Result<Vec<u8>, std::io::Error>) -> (out: Result<
    Vec<u8>,
    StoreError,
>)
    ensures
        match outcome {
            Ok(data) => out matches Ok(kept) && kept@ == data@,
            Err(_) => out == Err::<Vec<u8>, StoreError>(StoreError::CorruptObject),
        },
{
    match outcome {
        Ok(data) => Ok(data),
        Err(_) => Err(StoreError::CorruptObject),
    }
}

/// Compresses `data`: the stream that the encoder writes for it, which
/// decompresses to `data` again, or `Io` on the data for which the encoder
/// reports a failure, and on no other.
pub fn compress(data: &[u8]) -> (out: Result<Vec<u8>, StoreError>)
    ensures
        match out {
            Ok(stream) => compressed(data@) == Ok::<Seq<u8>, StoreError>(stream@)
                && decompressed(stream@) == Ok::<Seq<u8>, StoreError>(data@),
            Err(e) => compressed(data@) == Err::<Seq<u8>, StoreError>(e),
        },
{
    compressed_or_io(deflate(data))
}

/// Decompresses `stream`: the bytes that it holds, or `CorruptObject` where
/// it is not a valid compressed stream.
pub fn decompress(stream: &[u8]) -> (out: Result<Vec<u8>, StoreError>)
    ensures
        match out {
            Ok(data) => decompressed(stream@) == Ok::<Seq<u8>, StoreError>(data@),
            Err(e) => decompressed(stream@) == Err::<Seq<u8>, StoreError>(e),
        },
{
    inflated_or_corrupt(inflate(stream))
}

} // verus!
