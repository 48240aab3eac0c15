//! What holds of the sector format as a whole: a file that was written reads
//! back as the region it was written from, but for the timestamps of empty
//! slots, which the reader does not keep.

use crate::anvil::{
    external_stream, first_sector, first_slot_failure, lemma_run_length, lemma_sector_bounds,
    location_count, location_offset, location_table, overflow_files, run_start, run_stream,
    sector_chunks, sector_file, sector_region, sector_runs, sector_timestamp, sector_timestamps,
    slot_content, slot_in_bounds, slot_location, slot_run, slot_sectors, slot_stream,
    stream_overflows, stream_run, timestamp_table, ExternalChunkView, SlotContent,
};
use crate::codec::{
    be_u24, be_u32, lemma_u24_round_trip, lemma_u32_round_trip, sectors_for, u24_be, u32_be,
    zeros,
};
use crate::compress::{zlib_deflated, zlib_inflated, zlib_round_trips};
use crate::error::Failure;
use crate::region::{region_coord_in_range, slot_coords, RegionView};
use vstd::prelude::*;

verus! {

/// Where the number of sectors of a run changes. A stream of at most 4091 bytes takes one
/// sector. A stream of 1044475 bytes, the longest that stays in the main file, takes 255,
/// as does every stream of more than 254 sectors less five bytes up to that length. A
/// longer stream leaves the one placeholder sector, whose stored length is 1 and whose
/// code is 130. A run that holds its stream has code 2.
pub proof fn lemma_run_boundaries(stream: Seq<u8>)
    ensures
        stream.len() <= 4091 ==> stream_run(stream).len() == 4096,
        254 * 4096 - 5 < stream.len() <= 1044475 ==> stream_run(stream).len() == 255 * 4096,
        stream.len() <= 1044475 ==> stream_run(stream)[4] == 2 && be_u32(
            stream_run(stream),
            0,
        ) == stream.len() + 1 && stream_run(stream).subrange(5, 5 + stream.len() as int)
            == stream,
        stream.len() > 1044475 ==> stream_run(stream) == u32_be(1).push(130u8) + zeros(4091)
            && stream_run(stream).len() == 4096 && stream_run(stream)[4] == 130,
{
    lemma_run_length(stream);
    if stream.len() <= 1044475 {
        let run = stream_run(stream);
        let head = u32_be(stream.len() as int + 1);
        lemma_u32_round_trip(stream.len() as int + 1);
        assert(run.subrange(0, 4) =~= head);
        assert(run.subrange(5, 5 + stream.len() as int) =~= stream);
    }
}

/// Whether every chunk of `r` has a zlib stream at `level` that reads back as its payload.
pub open spec fn streams_read_back(r: RegionView, level: u32) -> bool {
    forall|i: usize| #[trigger]
        r.chunks.contains_key(i) ==> (zlib_deflated(r.chunks[i].payload, level) matches Some(
            stream,
        ) && zlib_round_trips(r.chunks[i].payload, stream))
}

/// `r` with the timestamp zero for every slot that holds no chunk: what the sector reader
/// gives back of `r`.
pub open spec fn without_idle_timestamps(r: RegionView) -> RegionView {
    RegionView {
        timestamps: Seq::new(
            1024,
            |i: int|
                if r.chunks.contains_key(i as usize) {
                    r.timestamps[i]
                } else {
                    0u32
                },
        ),
        ..r
    }
}

/// The location table of the slots below `n` holds the entry of each slot `i` below `n`
/// at `4 * i`.
proof fn lemma_location_entry(r: RegionView, level: u32, n: int, i: int)
    requires
        0 <= i < n <= 1024,
    ensures
        location_table(r, level, n).subrange(4 * i, 4 * i + 4) == slot_location(r, level, i),
        slot_location(r, level, i).len() == 4,
    decreases n,
{
    lemma_sector_bounds(r, level, n - 1);
    lemma_sector_bounds(r, level, n);
    let prev = location_table(r, level, n - 1);
    if i == n - 1 {
        assert(location_table(r, level, n).subrange(4 * i, 4 * i + 4) =~= slot_location(
            r,
            level,
            i,
        ));
    } else {
        lemma_location_entry(r, level, n - 1, i);
        assert(location_table(r, level, n).subrange(4 * i, 4 * i + 4) =~= prev.subrange(
            4 * i,
            4 * i + 4,
        ));
    }
}

/// The timestamp table of the slots below `n` holds the timestamp of each slot `i` below
/// `n` at `4 * i`.
proof fn lemma_timestamp_entry(r: RegionView, n: int, i: int)
    requires
        0 <= i < n <= 1024,
    ensures
        timestamp_table(r, n).subrange(4 * i, 4 * i + 4) == u32_be(r.timestamps[i] as int),
    decreases n,
{
    lemma_sector_bounds(r, 0, n - 1);
    lemma_sector_bounds(r, 0, n);
    let prev = timestamp_table(r, n - 1);
    if i == n - 1 {
        assert(timestamp_table(r, n).subrange(4 * i, 4 * i + 4) =~= u32_be(
            r.timestamps[i] as int,
        ));
    } else {
        lemma_timestamp_entry(r, n - 1, i);
        assert(timestamp_table(r, n).subrange(4 * i, 4 * i + 4) =~= prev.subrange(
            4 * i,
            4 * i + 4,
        ));
    }
}

/// The runs are laid out in slot order.
proof fn lemma_first_sector_grows(r: RegionView, level: u32, i: int, j: int)
    requires
        0 <= i <= j <= 1024,
    ensures
        first_sector(r, level, i) <= first_sector(r, level, j),
    decreases j - i,
{
    if i < j {
        lemma_first_sector_grows(r, level, i, j - 1);
        lemma_sector_bounds(r, level, j - 1);
    }
}

/// The runs of the slots below `n` hold the run of each slot `i` below `n` at the sector
/// that the location table names for it.
proof fn lemma_run_place(r: RegionView, level: u32, n: int, i: int)
    requires
        0 <= i < n <= 1024,
    ensures
        first_sector(r, level, i + 1) <= first_sector(r, level, n),
        sector_runs(r, level, n).subrange(
            (first_sector(r, level, i) - 2) * 4096,
            (first_sector(r, level, i + 1) - 2) * 4096,
        ) == slot_run(r, level, i),
    decreases n,
{
    lemma_sector_bounds(r, level, n - 1);
    lemma_sector_bounds(r, level, n);
    lemma_sector_bounds(r, level, i);
    lemma_first_sector_grows(r, level, i + 1, n);
    let prev = sector_runs(r, level, n - 1);
    let from = (first_sector(r, level, i) - 2) * 4096;
    let to = (first_sector(r, level, i + 1) - 2) * 4096;
    if i == n - 1 {
        assert(sector_runs(r, level, n).subrange(from, to) =~= slot_run(r, level, i));
    } else {
        lemma_run_place(r, level, n - 1, i);
        assert(sector_runs(r, level, n).subrange(from, to) =~= prev.subrange(from, to));
    }
}

/// The three parts of the main file, found again in its bytes.
proof fn lemma_file_parts(r: RegionView, level: u32, i: int)
    requires
        0 <= i < 1024,
    ensures
        sector_file(r, level).len() == first_sector(r, level, 1024) * 4096,
        sector_file(r, level).subrange(4 * i, 4 * i + 4) == slot_location(r, level, i),
        sector_file(r, level).subrange(4096 + 4 * i, 4096 + 4 * i + 4) == u32_be(
            r.timestamps[i] as int,
        ),
        2 <= first_sector(r, level, i),
        first_sector(r, level, i) + slot_sectors(r, level, i) == first_sector(r, level, i + 1),
        first_sector(r, level, i + 1) <= first_sector(r, level, 1024),
        sector_file(r, level).subrange(
            first_sector(r, level, i) * 4096,
            first_sector(r, level, i + 1) * 4096,
        ) == slot_run(r, level, i),
{
    let file = sector_file(r, level);
    let locations = location_table(r, level, 1024);
    let stamps = timestamp_table(r, 1024);
    let runs = sector_runs(r, level, 1024);
    lemma_sector_bounds(r, level, 1024);
    lemma_sector_bounds(r, level, i);
    lemma_location_entry(r, level, 1024, i);
    lemma_timestamp_entry(r, 1024, i);
    lemma_run_place(r, level, 1024, i);
    assert(file.subrange(4 * i, 4 * i + 4) =~= locations.subrange(4 * i, 4 * i + 4));
    assert(file.subrange(4096 + 4 * i, 4096 + 4 * i + 4) =~= stamps.subrange(4 * i, 4 * i + 4));
    let from = first_sector(r, level, i) * 4096;
    let to = first_sector(r, level, i + 1) * 4096;
    assert(file.subrange(from, to) =~= runs.subrange(from - 8192, to - 8192));
}

/// What the reader finds in the location and timestamp entries of slot `i`.
proof fn lemma_entries_read_back(r: RegionView, level: u32, i: int)
    requires
        0 <= i < 1024,
    ensures
        sector_timestamp(sector_file(r, level), i) == r.timestamps[i],
        r.chunks.contains_key(i as usize) ==> location_offset(sector_file(r, level), i)
            == first_sector(r, level, i) && location_count(sector_file(r, level), i)
            == slot_sectors(r, level, i),
        !r.chunks.contains_key(i as usize) ==> location_offset(sector_file(r, level), i) == 0,
{
    let file = sector_file(r, level);
    lemma_file_parts(r, level, i);
    lemma_sector_bounds(r, level, i);
    let entry = file.subrange(4 * i, 4 * i + 4);
    assert(entry[0] == file[4 * i] && entry[1] == file[4 * i + 1] && entry[2] == file[4 * i + 2]
        && entry[3] == file[4 * i + 3]);
    let stamp = file.subrange(4096 + 4 * i, 4096 + 4 * i + 4);
    assert(stamp[0] == file[4096 + 4 * i] && stamp[1] == file[4096 + 4 * i + 1] && stamp[2]
        == file[4096 + 4 * i + 2] && stamp[3] == file[4096 + 4 * i + 3]);
    lemma_u32_round_trip(r.timestamps[i] as int);
    assert(be_u32(file, 4096 + 4 * i) == be_u32(stamp, 0));
    if r.chunks.contains_key(i as usize) {
        let first = first_sector(r, level, i);
        lemma_u24_round_trip(first);
        let offset = u24_be(first);
        assert(entry[0] == offset[0] && entry[1] == offset[1] && entry[2] == offset[2]);
        assert(be_u24(file, 4 * i) == be_u24(offset, 0));
    } else {
        assert(entry =~= zeros(4));
    }
}

/// What the reader finds at the start of a run, and what it hands to the decoder.
proof fn lemma_run_reads_back(file: Seq<u8>, start: int, stream: Seq<u8>)
    requires
        0 <= start,
        start + stream_run(stream).len() <= file.len(),
        file.subrange(start, start + stream_run(stream).len()) == stream_run(stream),
    ensures
        stream_overflows(stream.len() as int) ==> file[start + 4] == 130,
        !stream_overflows(stream.len() as int) ==> {
            &&& file[start + 4] == 2
            &&& be_u32(file, start) == stream.len() + 1
            &&& file.subrange(start + 5, start + 5 + stream.len()) == stream
            &&& stream.len() + 5 < stream_run(stream).len() ==> file[start + 5 + stream.len()] == 0
        },
{
    let run = stream_run(stream);
    lemma_run_length(stream);
    assert forall|k: int| 0 <= k < run.len() implies file[start + k] == run[k] by {
        assert(file.subrange(start, start + run.len())[k] == file[start + k]);
    }
    if stream_overflows(stream.len() as int) {
        assert(run[4] == 130);
    } else {
        let stored = u32_be(stream.len() as int + 1);
        lemma_u32_round_trip(stream.len() as int + 1);
        assert(run[0] == stored[0] && run[1] == stored[1] && run[2] == stored[2] && run[3]
            == stored[3]);
        assert(run[4] == 2);
        assert(file[start] == run[0] && file[start + 1] == run[1] && file[start + 2] == run[2]
            && file[start + 3] == run[3] && file[start + 4] == run[4]);
        assert(be_u32(file, start) == be_u32(stored, 0));
        assert forall|k: int| 0 <= k < stream.len() implies file[start + 5 + k] == stream[k] by {
            assert(file[start + (5 + k)] == run[5 + k]);
        }
        assert(file.subrange(start + 5, start + 5 + stream.len()) =~= stream);
        if stream.len() + 5 < run.len() {
            assert(file[start + (5 + stream.len())] == run[5 + stream.len() as int]);
        }
    }
}

/// Whether slot `i` of `r` has a chunk whose stream overflows into a file of its own.
pub open spec fn slot_overflows(r: RegionView, level: u32, i: int) -> bool {
    slot_stream(r, level, i) matches Some(stream) && stream_overflows(stream.len() as int)
}

/// Looking a chunk up in a list with one more file at its end.
proof fn lemma_external_stream_push(
    files: Seq<ExternalChunkView>,
    last: ExternalChunkView,
    x: int,
    z: int,
)
    ensures
        external_stream(files.push(last), x, z) == match external_stream(files, x, z) {
            Some(stream) => Some(stream),
            None => if last.x == x && last.z == z {
                Some(last.data)
            } else {
                None
            },
        },
    decreases files.len(),
{
    let longer = files.push(last);
    let tail = longer.subrange(1, longer.len() as int);
    assert(longer[0] == if files.len() == 0 {
        last
    } else {
        files[0]
    });
    if files.len() == 0 {
        assert(tail =~= Seq::<ExternalChunkView>::empty());
        assert(external_stream(tail, x, z).is_none());
        assert(external_stream(files, x, z).is_none());
    } else {
        let rest = files.subrange(1, files.len() as int);
        assert(tail =~= rest.push(last));
        if !(files[0].x == x && files[0].z == z) {
            lemma_external_stream_push(rest, last, x, z);
            assert(external_stream(files, x, z) == external_stream(rest, x, z));
            assert(external_stream(longer, x, z) == external_stream(tail, x, z));
        }
    }
}

/// Two slots of a region have the same coordinates only if they are the same slot.
proof fn lemma_slot_coords_differ(region_x: i32, region_z: i32, i: int, j: int)
    requires
        region_coord_in_range(region_x as int),
        region_coord_in_range(region_z as int),
        0 <= i < 1024,
        0 <= j < 1024,
        i != j,
    ensures
        slot_coords(region_x as int, region_z as int, i).0 as i32 != slot_coords(
            region_x as int,
            region_z as int,
            j,
        ).0 as i32 || slot_coords(region_x as int, region_z as int, i).1 as i32 != slot_coords(
            region_x as int,
            region_z as int,
            j,
        ).1 as i32,
{
}

/// Among the files that the slots below `n` need, the one of slot `i` is found by the
/// coordinates of slot `i`, and no other is.
proof fn lemma_external_found(r: RegionView, level: u32, n: int, i: int)
    requires
        region_coord_in_range(r.region_x as int),
        region_coord_in_range(r.region_z as int),
        0 <= n <= 1024,
        0 <= i < 1024,
    ensures
        external_stream(
            overflow_files(r, level, n),
            slot_coords(r.region_x as int, r.region_z as int, i).0,
            slot_coords(r.region_x as int, r.region_z as int, i).1,
        ) == if i < n && slot_overflows(r, level, i) {
            slot_stream(r, level, i)
        } else {
            None
        },
    decreases n,
{
    if n > 0 {
        lemma_external_found(r, level, n - 1, i);
        let x = slot_coords(r.region_x as int, r.region_z as int, i).0;
        let z = slot_coords(r.region_x as int, r.region_z as int, i).1;
        if slot_overflows(r, level, n - 1) {
            let last = ExternalChunkView {
                x: slot_coords(r.region_x as int, r.region_z as int, n - 1).0 as i32,
                z: slot_coords(r.region_x as int, r.region_z as int, n - 1).1 as i32,
                data: slot_stream(r, level, n - 1).unwrap(),
            };
            lemma_external_stream_push(overflow_files(r, level, n - 1), last, x, z);
            if i != n - 1 {
                lemma_slot_coords_differ(r.region_x, r.region_z, i, n - 1);
            }
        }
    }
}

/// How the chunk in slot `i` lies in the file that is written for `r`, where `stream` is
/// its zlib stream. Its location entry names the first sector of its run and the number of
/// its sectors: as many as the stream and five bytes take, or one where the stream
/// overflows. The run stands in the file at that place. And a file of its own is found
/// under the chunk's coordinates exactly where the stream overflows.
pub proof fn lemma_slot_layout(r: RegionView, level: u32, i: int, stream: Seq<u8>)
    requires
        region_coord_in_range(r.region_x as int),
        region_coord_in_range(r.region_z as int),
        0 <= i < 1024,
        r.chunks.contains_key(i as usize),
        zlib_deflated(r.chunks[i as usize].payload, level) == Some(stream),
    ensures
        ({
            let file = sector_file(r, level);
            let first = location_offset(file, i);
            let count = location_count(file, i);
            &&& first == first_sector(r, level, i)
            &&& 2 <= first
            &&& count == if stream.len() > 1044475 {
                1
            } else {
                sectors_for(5 + stream.len() as int)
            }
            &&& (first + count) * 4096 <= file.len()
            &&& file.subrange(first * 4096, (first + count) * 4096) == stream_run(stream)
            &&& external_stream(
                overflow_files(r, level, 1024),
                slot_coords(r.region_x as int, r.region_z as int, i).0,
                slot_coords(r.region_x as int, r.region_z as int, i).1,
            ) == if stream.len() > 1044475 {
                Some(stream)
            } else {
                None
            }
        }),
{
    lemma_entries_read_back(r, level, i);
    lemma_file_parts(r, level, i);
    lemma_sector_bounds(r, level, i);
    lemma_run_length(stream);
    lemma_external_found(r, level, 1024, i);
    assert(slot_stream(r, level, i) == Some(stream));
    assert(slot_run(r, level, i) == stream_run(stream));
}

/// What the reader makes of slot `i` of the file that the writer made of `r`: the chunk's
/// payload where `r` holds a chunk there, and nothing where it holds none.
proof fn lemma_slot_reads_back(r: RegionView, level: u32, i: int)
    requires
        r.wf(),
        region_coord_in_range(r.region_x as int),
        region_coord_in_range(r.region_z as int),
        streams_read_back(r, level),
        0 <= i < 1024,
    ensures
        slot_content(
            sector_file(r, level),
            overflow_files(r, level, 1024),
            r.region_x,
            r.region_z,
            i,
        ) == if r.chunks.contains_key(i as usize) {
            SlotContent::Payload(r.chunks[i as usize].payload)
        } else {
            SlotContent::Absent
        },
{
    let file = sector_file(r, level);
    lemma_entries_read_back(r, level, i);
    lemma_file_parts(r, level, i);
    lemma_sector_bounds(r, level, i);
    if r.chunks.contains_key(i as usize) {
        let payload = r.chunks[i as usize].payload;
        let stream = zlib_deflated(payload, level).unwrap();
        assert(zlib_round_trips(payload, stream));
        assert(slot_stream(r, level, i) == Some(stream));
        lemma_run_length(stream);
        let start = first_sector(r, level, i) * 4096;
        assert(slot_run(r, level, i) == stream_run(stream));
        assert(first_sector(r, level, i + 1) * 4096 == start + stream_run(stream).len());
        lemma_run_reads_back(file, start, stream);
        assert(slot_in_bounds(file, i));
        assert(run_start(file, i) == start);
        if stream_overflows(stream.len() as int) {
            lemma_external_found(r, level, 1024, i);
            assert(stream + Seq::<u8>::empty() =~= stream);
            assert(zlib_inflated(stream + Seq::<u8>::empty()) == Some(payload));
        } else {
            let available = slot_sectors(r, level, i) * 4096 - 5;
            if stream.len() + 1 <= available {
                assert(run_stream(file, i) =~= stream + seq![0u8]);
                assert(zlib_inflated(stream + seq![0u8]) == Some(payload));
            } else {
                assert(run_stream(file, i) =~= stream + Seq::<u8>::empty());
                assert(zlib_inflated(stream + Seq::<u8>::empty()) == Some(payload));
            }
        }
    }
}

/// No slot of the file that the writer made of `r` gives an error.
proof fn lemma_no_slot_fails(r: RegionView, level: u32, n: int)
    requires
        r.wf(),
        region_coord_in_range(r.region_x as int),
        region_coord_in_range(r.region_z as int),
        streams_read_back(r, level),
        0 <= n <= 1024,
    ensures
        first_slot_failure(
            sector_file(r, level),
            overflow_files(r, level, 1024),
            r.region_x,
            r.region_z,
            n,
        ).is_none(),
    decreases n,
{
    if n > 0 {
        lemma_no_slot_fails(r, level, n - 1);
        lemma_slot_reads_back(r, level, n - 1);
    }
}

/// The main file and the files beside it that the writer makes of `r` read back as `r`,
/// but for the timestamps of the empty slots, which come back as zero. It is assumed that
/// every chunk's zlib stream reads back as its payload, and that the chunks carry the
/// coordinates of their slots.
pub proof fn lemma_sector_reads_back(r: RegionView, level: u32)
    requires
        r.wf(),
        r.coords_agree(),
        region_coord_in_range(r.region_x as int),
        region_coord_in_range(r.region_z as int),
        streams_read_back(r, level),
    ensures
        sector_region(
            sector_file(r, level),
            overflow_files(r, level, 1024),
            r.region_x,
            r.region_z,
            r.mtime,
        ) == Ok::<RegionView, Failure>(without_idle_timestamps(r)),
{
    let file = sector_file(r, level);
    let files = overflow_files(r, level, 1024);
    lemma_sector_bounds(r, level, 1024);
    lemma_no_slot_fails(r, level, 1024);
    let chunks = sector_chunks(file, files, r.region_x, r.region_z);
    assert forall|i: usize| chunks.contains_key(i) <==> r.chunks.contains_key(i) by {
        if i < 1024 {
            lemma_slot_reads_back(r, level, i as int);
        }
    }
    assert forall|i: usize| r.chunks.contains_key(i) implies #[trigger] chunks[i]
        == r.chunks[i] by {
        lemma_slot_reads_back(r, level, i as int);
    }
    assert(chunks =~= r.chunks);
    let stamps = sector_timestamps(file, files, r.region_x, r.region_z);
    assert forall|i: int| 0 <= i < 1024 implies stamps[i] == without_idle_timestamps(
        r,
    ).timestamps[i] by {
        lemma_slot_reads_back(r, level, i);
        lemma_entries_read_back(r, level, i);
    }
    assert(stamps =~= without_idle_timestamps(r).timestamps);
}

/// A region that was read from a sector file carries in every chunk the coordinates of
/// its slot, and the timestamp zero for every empty slot.
pub proof fn lemma_sector_region_is_coherent(
    file: Seq<u8>,
    files: Seq<ExternalChunkView>,
    region_x: i32,
    region_z: i32,
    mtime: u64,
    r: RegionView,
)
    requires
        sector_region(file, files, region_x, region_z, mtime) == Ok::<RegionView, Failure>(r),
    ensures
        r.wf(),
        r.coords_agree(),
        r.region_x == region_x,
        r.region_z == region_z,
        r.mtime == mtime,
        without_idle_timestamps(r) == r,
        region_coord_in_range(region_x as int),
        region_coord_in_range(region_z as int),
{
    assert(r.chunks == sector_chunks(file, files, region_x, region_z));
    assert(r.timestamps == sector_timestamps(file, files, region_x, region_z));
    crate::region::lemma_slots_finite(r.chunks.dom());
    assert(without_idle_timestamps(r).timestamps =~= r.timestamps);
}

/// Reading, writing and reading again gives what the first reading gave: where a sector
/// file reads as `r`, what the writer makes of `r` reads as `r` too, provided that every
/// chunk's new zlib stream reads back as its payload.
pub proof fn lemma_sector_reread(
    file: Seq<u8>,
    files: Seq<ExternalChunkView>,
    region_x: i32,
    region_z: i32,
    mtime: u64,
    r: RegionView,
    level: u32,
)
    requires
        sector_region(file, files, region_x, region_z, mtime) == Ok::<RegionView, Failure>(r),
        streams_read_back(r, level),
    ensures
        sector_region(
            sector_file(r, level),
            overflow_files(r, level, 1024),
            region_x,
            region_z,
            mtime,
        ) == Ok::<RegionView, Failure>(r),
{
    lemma_sector_region_is_coherent(file, files, region_x, region_z, mtime, r);
    lemma_sector_reads_back(r, level);
}

} // verus!
