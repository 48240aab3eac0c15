//! The two outside compressors: zlib streams through `flate2`, Zstandard frames
//! through `zstd`. What they compute is named here and not spelled out; the
//! functions below say how their results are bound to those names, and hold what
//! this crate relies on without proof.

use std::io::Read;
use std::io::Write;
use vstd::prelude::*;

verus! {

/// The zlib stream that `flate2` writes for `data` at `level`, or `None` where it reports
/// an error.
pub uninterp spec fn zlib_deflated(data: Seq<u8>, level: u32) -> Option<Seq<u8>>;

/// What `flate2` reads out of the zlib stream at the start of `data`, or `None` where it
/// reports an error.
pub uninterp spec fn zlib_inflated(data: Seq<u8>) -> Option<Seq<u8>>;

/// The Zstandard frame that `zstd::bulk::compress` makes of `data` at `level`, or the
/// text that reports why it made none.
pub uninterp spec fn zstd_encoded(data: Seq<u8>, level: i32) -> Result<Seq<u8>, Seq<char>>;

/// What `zstd::bulk::decompress` unpacks from `data` into a buffer of `capacity` bytes, or
/// `None` where it reports an error.
pub uninterp spec fn zstd_bulk_decoded(data: Seq<u8>, capacity: usize) -> Option<Seq<u8>>;

/// What a `zstd::stream::Decoder` over `data` yields when read to its end, or the text
/// that reports why it could not be made or read.
pub uninterp spec fn zstd_stream_decoded(data: Seq<u8>) -> Result<Seq<u8>, Seq<char>>;

/// A `ZlibDecoder` that reads `stream` gives `data`, whatever bytes follow the stream.
pub open spec fn zlib_round_trips(data: Seq<u8>, stream: Seq<u8>) -> bool {
    forall|tail: Seq<u8>| #[trigger] zlib_inflated(stream + tail) == Some(data)
}

/// Unpacking `frame` gives `data`: the streaming decoder gives it, and so does every bulk
/// decompression that succeeds.
pub open spec fn zstd_round_trips(data: Seq<u8>, frame: Seq<u8>) -> bool {
    &&& zstd_stream_decoded(frame) == Ok::<Seq<u8>, Seq<char>>(data)
    &&& forall|capacity: usize|
        (#[trigger] zstd_bulk_decoded(frame, capacity)).is_some() ==> zstd_bulk_decoded(
            frame,
            capacity,
        ) == Some(data)
}

/// Compresses `data` into a zlib stream with `flate2::write::ZlibEncoder`, at a level that
/// the backend defines (0 to 10).
///
/// Believed of `flate2`: the stream is a function of the data and the level, and a
/// `ZlibDecoder` that reads it gives the data back, whatever bytes follow the stream's end.
#[verifier::external_body]
pub(crate) fn zlib_compress(data: &[u8], level: u32) -> (r: Result<Vec<u8>, std::io::Error>)
    requires
        level <= 10,
    ensures
        match r {
            Ok(stream) => zlib_deflated(data@, level) == Some(stream@) && zlib_round_trips(
                data@,
                stream@,
            ),
            Err(_) => zlib_deflated(data@, level).is_none(),
        },
{
    let mut encoder = flate2::write::ZlibEncoder::new(Vec::new(), flate2::Compression::new(level));
    encoder.write_all(data)?;
    encoder.finish()
}

/// Reads the zlib stream at the start of `data` to its end with `flate2::read::ZlibDecoder`.
///
/// Believed of `flate2`: the outcome is a function of the bytes.
#[verifier::external_body]
pub(crate) fn zlib_decompress(data: &[u8]) -> (r: Result<Vec<u8>, std::io::Error>)
    ensures
        match r {
            Ok(bytes) => zlib_inflated(data@) == Some(bytes@),
            Err(_) => zlib_inflated(data@).is_none(),
        },
{
    let mut bytes = Vec::new();
    flate2::read::ZlibDecoder::new(data).read_to_end(&mut bytes)?;
    Ok(bytes)
}

/// Compresses `data` with `zstd::bulk::compress`. An error comes back as the text that
/// reports it.
///
/// Believed of `zstd`: the outcome is a function of the data and the level; a streaming
/// decoder reads the data back from the frame; and `zstd::bulk::decompress`, where it
/// succeeds on the frame, gives the data back too.
#[verifier::external_body]
pub(crate) fn zstd_compress(data: &[u8], level: i32) -> (r: Result<Vec<u8>, String>)
    ensures
        match r {
            Ok(frame) => zstd_encoded(data@, level) == Ok::<Seq<u8>, Seq<char>>(frame@)
                && zstd_round_trips(data@, frame@),
            Err(text) => zstd_encoded(data@, level) == Err::<Seq<u8>, Seq<char>>(text@),
        },
{
    zstd::bulk::compress(data, level).map_err(|e| format!("ZSTD compression failed: {}", e))
}

/// Unpacks `data` with `zstd::bulk::decompress` into a buffer of `capacity` bytes, which
/// the call allocates at once: so the capacity is kept to 1 GiB.
///
/// Believed of `zstd`: the outcome is a function of the bytes and the capacity.
#[verifier::external_body]
pub(crate) fn zstd_bulk_decompress(data: &[u8], capacity: usize) -> (r: Result<
    Vec<u8>,
    std::io::Error,
>)
    requires
        capacity <= 0x4000_0000,
    ensures
        match r {
            Ok(bytes) => zstd_bulk_decoded(data@, capacity) == Some(bytes@),
            Err(_) => zstd_bulk_decoded(data@, capacity).is_none(),
        },
{
    zstd::bulk::decompress(data, capacity)
}

/// Reads all that a `zstd::stream::Decoder` over `data` yields, with `std::io::copy`. An
/// error comes back as the text that reports it.
///
/// Believed of `zstd`: the outcome is a function of the bytes.
#[verifier::external_body]
pub(crate) fn zstd_stream_decompress(data: &[u8]) -> (r: Result<Vec<u8>, String>)
    ensures
        match r {
            Ok(bytes) => zstd_stream_decoded(data@) == Ok::<Seq<u8>, Seq<char>>(bytes@),
            Err(text) => zstd_stream_decoded(data@) == Err::<Seq<u8>, Seq<char>>(text@),
        },
{
    let mut decoder = zstd::stream::Decoder::new(data).map_err(
        |e| format!("Streaming decoder creation failed: {}", e),
    )?;
    let mut bytes = Vec::new();
    std::io::copy(&mut decoder, &mut bytes).map_err(
        |e| format!("Streaming decompression failed: {}", e),
    )?;
    Ok(bytes)
}

} // verus!
