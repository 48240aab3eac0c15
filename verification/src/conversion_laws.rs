//! What holds of a conversion from one format to the other and back.

use crate::anvil::{overflow_files, sector_file, sector_region, ExternalChunkView};
use crate::compress::zstd_round_trips;
use crate::error::Failure;
use crate::linear::{
    fits_stream, linear_region, region_header, region_unpacked, stream_file,
};
use crate::region::RegionView;
use crate::sector_laws::{
    lemma_sector_reads_back, lemma_sector_region_is_coherent, streams_read_back,
    without_idle_timestamps,
};
use crate::stream_laws::{
    lemma_stream_reads_back, lemma_stream_region_is_coherent, payloads_not_empty,
};
use vstd::prelude::*;

verus! {

/// From the sector format to the stream format and back: where a sector file reads as
/// `r`, the stream file made of `r` reads as `r`, and the sector file made of that reads
/// as `r` again. The stream format cannot hold a chunk without payload nor one of 4 GiB
/// or more, so `r` must have none; and the compressors must give streams that read back.
pub proof fn lemma_sector_stream_sector(
    file: Seq<u8>,
    files: Seq<ExternalChunkView>,
    region_x: i32,
    region_z: i32,
    mtime: u64,
    r: RegionView,
    stream_level: i32,
    frame: Seq<u8>,
    sector_level: u32,
)
    requires
        sector_region(file, files, region_x, region_z, mtime) == Ok::<RegionView, Failure>(r),
        payloads_not_empty(r),
        fits_stream(r),
        zstd_round_trips(region_unpacked(r), frame),
        streams_read_back(r, sector_level),
    ensures
        linear_region(
            stream_file(region_header(r, stream_level, frame.len() as int), frame),
            region_x,
            region_z,
            mtime,
        ) == Ok::<RegionView, Failure>(r),
        sector_region(
            sector_file(r, sector_level),
            overflow_files(r, sector_level, 1024),
            region_x,
            region_z,
            mtime,
        ) == Ok::<RegionView, Failure>(r),
{
    lemma_sector_region_is_coherent(file, files, region_x, region_z, mtime, r);
    lemma_stream_reads_back(r, stream_level, frame);
    lemma_sector_reads_back(r, sector_level);
}

/// From the stream format to the sector format and back: where a stream file reads as
/// `r`, the sector file made of `r`, with the files beside it for the chunks that
/// overflow, reads as `r` without the timestamps of its empty slots, and the stream file
/// made of that reads as the same. Every chunk comes back with its payload, its
/// coordinates and its timestamp. The compressors must give streams that read back.
pub proof fn lemma_stream_sector_stream(
    file: Seq<u8>,
    region_x: i32,
    region_z: i32,
    mtime: u64,
    r: RegionView,
    sector_level: u32,
    stream_level: i32,
    frame: Seq<u8>,
)
    requires
        linear_region(file, region_x, region_z, mtime) == Ok::<RegionView, Failure>(r),
        streams_read_back(r, sector_level),
        zstd_round_trips(region_unpacked(without_idle_timestamps(r)), frame),
    ensures
        sector_region(
            sector_file(r, sector_level),
            overflow_files(r, sector_level, 1024),
            region_x,
            region_z,
            mtime,
        ) == Ok::<RegionView, Failure>(without_idle_timestamps(r)),
        linear_region(
            stream_file(
                region_header(without_idle_timestamps(r), stream_level, frame.len() as int),
                frame,
            ),
            region_x,
            region_z,
            mtime,
        ) == Ok::<RegionView, Failure>(without_idle_timestamps(r)),
        without_idle_timestamps(r).chunks == r.chunks,
        forall|i: usize| #[trigger]
            r.chunks.contains_key(i) ==> without_idle_timestamps(r).timestamps[i as int]
                == r.timestamps[i as int],
{
    lemma_stream_region_is_coherent(file, region_x, region_z, mtime, r);
    lemma_sector_reads_back(r, sector_level);
    let kept = without_idle_timestamps(r);
    assert(kept.wf());
    assert(kept.coords_agree());
    assert(fits_stream(kept));
    assert(payloads_not_empty(kept));
    lemma_stream_reads_back(kept, stream_level, frame);
}

} // verus!
