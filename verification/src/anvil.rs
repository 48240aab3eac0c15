//! The sector format: 1024 location entries of four bytes, 1024 timestamps of
//! four bytes, and then the chunks, each in a run of whole sectors of 4096
//! bytes. A run starts with the stored length (four bytes, counting the code
//! byte that follows), the compression code, and the zlib stream. A chunk too
//! large for 255 sectors keeps a placeholder sector, and its stream lives in
//! a file of its own.

use crate::codec::{
    be_u24, be_u32, push_bytes, push_u32_be, push_zeros, read_u24_be, read_u32_be, sectors_for,
    u24_be, u32_be, zeros,
};
use crate::compress::{
    zlib_compress, zlib_decompress, zlib_deflated, zlib_inflated, zlib_round_trips,
};
use crate::error::{Failure, RegionError};
use crate::region::{
    chunk_position, coord_in_range, region_coord_in_range, slot_coords, Chunk, ChunkView, Region,
    RegionView,
};
use crate::sector_laws::{
    lemma_sector_reads_back, lemma_sector_region_is_coherent, streams_read_back,
    without_idle_timestamps,
};
use crate::COMPRESSION_TYPE_ZLIB;
use crate::EXTERNAL_FILE_COMPRESSION_TYPE;
use vstd::prelude::*;

verus! {

/// One entry of the location table: the number of the first sector of a run, in three
/// bytes, most significant first, and the number of sectors in the run.
#[derive(Debug, Clone, Copy)]
pub struct ChunkLocation {
    pub offset: [u8; 3],
    pub sector_count: u8,
}

impl ChunkLocation {
    /// The sector number that the three offset bytes hold.
    pub open spec fn offset_value(&self) -> int {
        be_u24(self.offset@, 0)
    }

    /// An entry for a run of `sector_count` sectors that starts at sector `offset`. Only
    /// the low 24 bits of `offset` are kept.
    pub fn new(offset: u32, sector_count: u8) -> (location: Self)
        ensures
            location.offset@ == u24_be(offset as int),
            location.sector_count == sector_count,
            offset < 0x100_0000 ==> location.offset_value() == offset,
    {
        proof {
            if offset < 0x100_0000 {
                crate::codec::lemma_u24_round_trip(offset as int);
            }
        }
        let location = ChunkLocation {
            offset: [
                ((offset / 0x1_0000) % 0x100) as u8,
                ((offset / 0x100) % 0x100) as u8,
                (offset % 0x100) as u8,
            ],
            sector_count,
        };
        assert(location.offset@ =~= u24_be(offset as int));
        location
    }

    /// Reads an entry from the first four bytes of `data`.
    pub fn from_bytes(data: &[u8]) -> (location: Self)
        requires
            data@.len() >= 4,
        ensures
            location.offset_value() == be_u24(data@, 0),
            location.offset@ == data@.subrange(0, 3),
            location.sector_count == data@[3],
    {
        let location = ChunkLocation { offset: [data[0], data[1], data[2]], sector_count: data[3] };
        assert(location.offset@ =~= data@.subrange(0, 3));
        location
    }

    /// The four bytes that hold this entry.
    pub fn to_bytes(&self) -> (bytes: [u8; 4])
        ensures
            bytes@ == self.offset@.push(self.sector_count),
    {
        let bytes: [u8; 4] = [self.offset[0], self.offset[1], self.offset[2], self.sector_count];
        assert(bytes@ =~= self.offset@.push(self.sector_count));
        bytes
    }

    /// The number of the first sector of the run.
    pub fn get_offset(&self) -> (offset: u32)
        ensures
            offset == self.offset_value(),
            offset < 0x100_0000,
    {
        (self.offset[0] as u32) * 0x1_0000 + (self.offset[1] as u32) * 0x100 + (
        self.offset[2] as u32)
    }

    /// Whether the entry stands for an empty slot: offset and sector count are both zero.
    pub fn is_empty(&self) -> (empty: bool)
        ensures
            empty == (self.offset_value() == 0 && self.sector_count == 0),
    {
        self.get_offset() == 0 && self.sector_count == 0
    }
}

/// The five bytes at the start of a run: the stored length, which counts the code byte
/// and the bytes of the stream, and the compression code.
#[derive(Debug, Clone, Copy)]
pub struct ChunkDataHeader {
    pub length: u32,
    pub compression_type: u8,
}

impl ChunkDataHeader {
    /// A header with these two fields.
    pub fn new(length: u32, compression_type: u8) -> (header: Self)
        ensures
            header.length == length,
            header.compression_type == compression_type,
    {
        ChunkDataHeader { length, compression_type }
    }

    /// Reads a header from the first five bytes of `data`.
    pub fn from_bytes(data: &[u8]) -> (header: Self)
        requires
            data@.len() >= 5,
        ensures
            header.length == be_u32(data@, 0),
            header.compression_type == data@[4],
    {
        ChunkDataHeader { length: read_u32_be(data, 0), compression_type: data[4] }
    }

    /// The five bytes that hold this header.
    pub fn to_bytes(&self) -> (bytes: [u8; 5])
        ensures
            bytes@ == u32_be(self.length as int).push(self.compression_type),
    {
        let mut out: Vec<u8> = Vec::new();
        push_u32_be(&mut out, self.length);
        let bytes: [u8; 5] = [out[0], out[1], out[2], out[3], self.compression_type];
        assert(bytes@ =~= u32_be(self.length as int).push(self.compression_type));
        bytes
    }
}

/// The zlib stream of a chunk that overflowed into a file of its own, with the chunk's
/// absolute coordinates, which name the file: `c.<x>.<z>.mcc`.
pub struct ExternalChunk {
    pub x: i32,
    pub z: i32,
    pub data: Vec<u8>,
}

/// What an [`ExternalChunk`] stands for.
pub struct ExternalChunkView {
    pub x: i32,
    pub z: i32,
    pub data: Seq<u8>,
}

impl View for ExternalChunk {
    type V = ExternalChunkView;

    open spec fn view(&self) -> ExternalChunkView {
        ExternalChunkView { x: self.x, z: self.z, data: self.data@ }
    }
}

/// What a list of [`ExternalChunk`]s stands for.
pub open spec fn external_views(files: Seq<ExternalChunk>) -> Seq<ExternalChunkView> {
    files.map_values(|f: ExternalChunk| f@)
}

/// The stream of the first file in `files` that belongs to chunk `(x, z)`.
pub open spec fn external_stream(files: Seq<ExternalChunkView>, x: int, z: int) -> Option<Seq<u8>>
    decreases files.len(),
{
    if files.len() == 0 {
        None
    } else if files[0].x == x && files[0].z == z {
        Some(files[0].data)
    } else {
        external_stream(files.subrange(1, files.len() as int), x, z)
    }
}

/// The sector number in location entry `i` of `file`.
pub open spec fn location_offset(file: Seq<u8>, i: int) -> int {
    be_u24(file, 4 * i)
}

/// The sector count in location entry `i` of `file`.
pub open spec fn location_count(file: Seq<u8>, i: int) -> int {
    file[4 * i + 3] as int
}

/// Entry `i` of the timestamp table of `file`.
pub open spec fn sector_timestamp(file: Seq<u8>, i: int) -> int {
    be_u32(file, 4096 + 4 * i)
}

/// Whether slot `i` of `file` points at a run: neither its offset nor its count is zero,
/// and the run ends inside the file. Any other slot is passed over.
pub open spec fn slot_in_bounds(file: Seq<u8>, i: int) -> bool {
    &&& location_offset(file, i) != 0
    &&& location_count(file, i) != 0
    &&& (location_offset(file, i) + location_count(file, i)) * 4096 <= file.len()
}

/// Where the run of slot `i` starts in `file`.
pub open spec fn run_start(file: Seq<u8>, i: int) -> int {
    location_offset(file, i) * 4096
}

/// The compression code at the start of the run of slot `i`.
pub open spec fn run_code(file: Seq<u8>, i: int) -> u8 {
    file[run_start(file, i) + 4]
}

/// The bytes of the run of slot `i` that are handed to the zlib decoder: those behind the
/// five header bytes, as many as the stored length says, and no more than the run holds.
pub open spec fn run_stream(file: Seq<u8>, i: int) -> Seq<u8> {
    let start = run_start(file, i) + 5;
    let stored = be_u32(file, run_start(file, i));
    let available = location_count(file, i) * 4096 - 5;
    file.subrange(
        start,
        start + if stored < available {
            stored
        } else {
            available
        },
    )
}

/// What a slot of a sector file gives.
pub enum SlotContent {
    /// Nothing: the slot is empty, or its entry points outside the file.
    Absent,
    /// A chunk with this payload.
    Payload(Seq<u8>),
    /// An error, which ends the reading of the file.
    Fails(Failure),
}

/// What slot `i` of `file` gives. Code 2 holds the zlib stream in the run itself; code 130
/// holds it in the chunk's own file, which must be among `files`; any other code is an
/// invalid format. A stream that the decoder refuses, or a file that is missing, is an
/// I/O failure.
pub open spec fn slot_content(
    file: Seq<u8>,
    files: Seq<ExternalChunkView>,
    region_x: i32,
    region_z: i32,
    i: int,
) -> SlotContent {
    let coords = slot_coords(region_x as int, region_z as int, i);
    if !slot_in_bounds(file, i) {
        SlotContent::Absent
    } else if run_code(file, i) == 2 {
        match zlib_inflated(run_stream(file, i)) {
            Some(payload) => SlotContent::Payload(payload),
            None => SlotContent::Fails(Failure::Io),
        }
    } else if run_code(file, i) == 130 {
        match external_stream(files, coords.0, coords.1) {
            Some(stream) => match zlib_inflated(stream) {
                Some(payload) => SlotContent::Payload(payload),
                None => SlotContent::Fails(Failure::Io),
            },
            None => SlotContent::Fails(Failure::Io),
        }
    } else {
        SlotContent::Fails(Failure::InvalidFormat)
    }
}

/// The error of the first slot below `n` that gives one.
pub open spec fn first_slot_failure(
    file: Seq<u8>,
    files: Seq<ExternalChunkView>,
    region_x: i32,
    region_z: i32,
    n: int,
) -> Option<Failure>
    decreases n,
{
    if n <= 0 {
        None
    } else {
        match first_slot_failure(file, files, region_x, region_z, n - 1) {
            Some(failure) => Some(failure),
            None => match slot_content(file, files, region_x, region_z, n - 1) {
                SlotContent::Fails(failure) => Some(failure),
                _ => None,
            },
        }
    }
}

/// The chunks that a sector file holds: one for each slot that gives a payload.
pub open spec fn sector_chunks(
    file: Seq<u8>,
    files: Seq<ExternalChunkView>,
    region_x: i32,
    region_z: i32,
) -> Map<usize, ChunkView> {
    Map::new(
        |i: usize|
            i < 1024 && slot_content(file, files, region_x, region_z, i as int) is Payload,
        |i: usize|
            ChunkView {
                payload: slot_content(file, files, region_x, region_z, i as int)->Payload_0,
                x: slot_coords(region_x as int, region_z as int, i as int).0 as i32,
                z: slot_coords(region_x as int, region_z as int, i as int).1 as i32,
            },
    )
}

/// The timestamps that reading a sector file gives: the entry of the timestamp table for
/// a slot that gives a payload, and zero for any other slot.
pub open spec fn sector_timestamps(
    file: Seq<u8>,
    files: Seq<ExternalChunkView>,
    region_x: i32,
    region_z: i32,
) -> Seq<u32> {
    Seq::new(
        1024,
        |i: int|
            if slot_content(file, files, region_x, region_z, i) is Payload {
                sector_timestamp(file, i) as u32
            } else {
                0u32
            },
    )
}

/// The region that the sector file `file` holds for `(region_x, region_z)`, with `files`
/// for the chunks that overflowed, or why it holds none. Region coordinates that leave a
/// chunk no coordinates that fit `i32` are an invalid format, and so is a file shorter
/// than the two tables; the slots are read in order, and the first error ends it.
pub open spec fn sector_region(
    file: Seq<u8>,
    files: Seq<ExternalChunkView>,
    region_x: i32,
    region_z: i32,
    mtime: u64,
) -> Result<RegionView, Failure> {
    if !region_coord_in_range(region_x as int) || !region_coord_in_range(region_z as int) {
        Err(Failure::InvalidFormat)
    } else if file.len() < 8192 {
        Err(Failure::InvalidFormat)
    } else {
        match first_slot_failure(file, files, region_x, region_z, 1024) {
            Some(failure) => Err(failure),
            None => Ok(
                RegionView {
                    chunks: sector_chunks(file, files, region_x, region_z),
                    region_x,
                    region_z,
                    mtime,
                    timestamps: sector_timestamps(file, files, region_x, region_z),
                },
            ),
        }
    }
}

/// Once a slot has given an error, reading further slots does not change it.
pub proof fn lemma_first_failure_stays(
    file: Seq<u8>,
    files: Seq<ExternalChunkView>,
    region_x: i32,
    region_z: i32,
    n: int,
    m: int,
)
    requires
        0 <= n <= m,
        first_slot_failure(file, files, region_x, region_z, n).is_some(),
    ensures
        first_slot_failure(file, files, region_x, region_z, m) == first_slot_failure(
            file,
            files,
            region_x,
            region_z,
            n,
        ),
    decreases m - n,
{
    if n < m {
        lemma_first_failure_stays(file, files, region_x, region_z, n, m - 1);
    }
}

/// `std::io::Error::from(ErrorKind::NotFound)`: the error that stands for a file that is
/// not there.
#[verifier::external_body]
fn file_not_found() -> (e: std::io::Error) {
    std::io::Error::from(std::io::ErrorKind::NotFound)
}

/// The stream of the first file in `files` that belongs to chunk `(x, z)`.
pub fn find_external(files: &Vec<ExternalChunk>, x: i32, z: i32) -> (found: Option<&Vec<u8>>)
    ensures
        match found {
            Some(data) => external_stream(external_views(files@), x as int, z as int) == Some(
                data@,
            ),
            None => external_stream(external_views(files@), x as int, z as int).is_none(),
        },
{
    let ghost views = external_views(files@);
    let mut k: usize = 0;
    assert(views.subrange(0, views.len() as int) =~= views);
    while k < files.len()
        invariant
            k <= files@.len(),
            views == external_views(files@),
            external_stream(views, x as int, z as int) == external_stream(
                views.subrange(k as int, views.len() as int),
                x as int,
                z as int,
            ),
        decreases files@.len() - k,
    {
        let ghost rest = views.subrange(k as int, views.len() as int);
        assert(rest[0] == files@[k as int]@);
        if files[k].x == x && files[k].z == z {
            return Some(&files[k].data);
        }
        assert(rest.subrange(1, rest.len() as int) =~= views.subrange(k + 1, views.len() as int));
        k += 1;
    }
    None
}

/// Reads slot `index` of the bytes of a sector file. `Ok(None)` stands for a slot that is
/// passed over.
pub fn read_anvil_slot(
    data: &[u8],
    files: &Vec<ExternalChunk>,
    region_x: i32,
    region_z: i32,
    index: usize,
) -> (r: Result<Option<Vec<u8>>, RegionError>)
    requires
        data@.len() >= 8192,
        index < 1024,
        region_coord_in_range(region_x as int),
        region_coord_in_range(region_z as int),
    ensures
        match r {
            Ok(Some(payload)) => slot_content(data@, external_views(files@), region_x, region_z, index as int)
                == SlotContent::Payload(payload@),
            Ok(None) => slot_content(data@, external_views(files@), region_x, region_z, index as int)
                == SlotContent::Absent,
            Err(e) => slot_content(data@, external_views(files@), region_x, region_z, index as int)
                == SlotContent::Fails(e.failure()),
        },
{
    let file_size: usize = data.len();
    let location = ChunkLocation::from_bytes(&data[index * 4..index * 4 + 4]);
    proof {
        let entry = data@.subrange(index * 4, index * 4 + 4);
        assert(entry[0] == data@[index * 4] && entry[1] == data@[index * 4 + 1] && entry[2]
            == data@[index * 4 + 2] && entry[3] == data@[index * 4 + 3]);
    }
    if location.is_empty() {
        return Ok(None);
    }
    let sector_offset: u64 = location.get_offset() as u64;
    let sector_count: u64 = location.sector_count as u64;
    if sector_offset == 0 || sector_count == 0 {
        return Ok(None);
    }
    let chunk_start: u64 = sector_offset * 4096;
    let chunk_end: u64 = chunk_start + sector_count * 4096;
    if chunk_end > file_size as u64 {
        return Ok(None);
    }
    let chunk_start: usize = chunk_start as usize;
    let chunk_end: usize = chunk_end as usize;
    let header = ChunkDataHeader::from_bytes(&data[chunk_start..chunk_start + 5]);
    proof {
        let head = data@.subrange(chunk_start as int, chunk_start + 5);
        assert(head[0] == data@[chunk_start as int] && head[1] == data@[chunk_start + 1]
            && head[2] == data@[chunk_start + 2] && head[3] == data@[chunk_start + 3] && head[4]
            == data@[chunk_start + 4]);
    }
    let available: usize = chunk_end - chunk_start - 5;
    if header.compression_type == COMPRESSION_TYPE_ZLIB {
        let data_length: usize = if (header.length as u64) < available as u64 {
            header.length as usize
        } else {
            available
        };
        let stream: &[u8] = &data[chunk_start + 5..chunk_start + 5 + data_length];
        assert(stream@ == run_stream(data@, index as int));
        match zlib_decompress(stream) {
            Ok(payload) => Ok(Some(payload)),
            Err(e) => Err(RegionError::Io(e)),
        }
    } else if header.compression_type == EXTERNAL_FILE_COMPRESSION_TYPE {
        let (chunk_x, chunk_z) = chunk_position(region_x, region_z, index);
        match find_external(files, chunk_x, chunk_z) {
            Some(stream) => match zlib_decompress(stream.as_slice()) {
                Ok(payload) => Ok(Some(payload)),
                Err(e) => Err(RegionError::Io(e)),
            },
            None => Err(RegionError::Io(file_not_found())),
        }
    } else {
        Err(RegionError::InvalidFormat)
    }
}

/// Whether slot `i` of `file` keeps its stream in a file of its own.
pub open spec fn slot_is_external(file: Seq<u8>, i: int) -> bool {
    slot_in_bounds(file, i) && run_code(file, i) == 130
}

/// The coordinates of the chunks in the slots below `n` that keep their streams in files
/// of their own, in slot order.
pub open spec fn external_coords(file: Seq<u8>, region_x: i32, region_z: i32, n: int) -> Seq<
    (i32, i32),
>
    decreases n,
{
    if n <= 0 {
        Seq::empty()
    } else if slot_is_external(file, n - 1) {
        external_coords(file, region_x, region_z, n - 1).push(
            (
                slot_coords(region_x as int, region_z as int, n - 1).0 as i32,
                slot_coords(region_x as int, region_z as int, n - 1).1 as i32,
            ),
        )
    } else {
        external_coords(file, region_x, region_z, n - 1)
    }
}

/// The chunks of a sector file whose streams the caller has to fetch before the file can
/// be read: the coordinates of every slot with code 130, in slot order. A file that is
/// no sector file for want of length or of coordinates in range names none.
pub fn external_chunks_needed(data: &[u8], region_x: i32, region_z: i32) -> (coords: Vec<
    (i32, i32),
>)
    ensures
        coords@ == if data@.len() < 8192 || !region_coord_in_range(region_x as int)
            || !region_coord_in_range(region_z as int) {
            Seq::empty()
        } else {
            external_coords(data@, region_x, region_z, 1024)
        },
{
    let mut coords: Vec<(i32, i32)> = Vec::new();
    if data.len() < 8192 || !coord_in_range(region_x) || !coord_in_range(region_z) {
        return coords;
    }
    let file_size: usize = data.len();
    let mut i: usize = 0;
    while i < 1024
        invariant
            i <= 1024,
            data@.len() >= 8192,
            file_size == data@.len(),
            region_coord_in_range(region_x as int),
            region_coord_in_range(region_z as int),
            coords@ == external_coords(data@, region_x, region_z, i as int),
        decreases 1024 - i,
    {
        let sector_offset: u64 = read_u24_be(data, i * 4) as u64;
        let sector_count: u64 = data[i * 4 + 3] as u64;
        if sector_offset != 0 && sector_count != 0 && (sector_offset + sector_count) * 4096
            <= file_size as u64 {
            let chunk_start: usize = (sector_offset * 4096) as usize;
            if data[chunk_start + 4] == EXTERNAL_FILE_COMPRESSION_TYPE {
                coords.push(chunk_position(region_x, region_z, i));
            }
        }
        i += 1;
    }
    coords
}

/// Reads a region out of the bytes of a sector file. `files` holds the streams of the
/// chunks that overflowed into files of their own; the region's coordinates come from the
/// file's name and `mtime` from its modification time, all of which the caller finds.
pub fn read_anvil_region(
    data: &[u8],
    files: &Vec<ExternalChunk>,
    region_x: i32,
    region_z: i32,
    mtime: u64,
) -> (r: Result<Region, RegionError>)
    ensures
        match r {
            Ok(region) => region.wf() && region@.coords_agree() && without_idle_timestamps(
                region@,
            ) == region@ && sector_region(
                data@,
                external_views(files@),
                region_x,
                region_z,
                mtime,
            ) == Ok::<RegionView, Failure>(region@),
            Err(e) => sector_region(data@, external_views(files@), region_x, region_z, mtime) == Err::<
                RegionView,
                Failure,
            >(e.failure()),
        },
{
    if !coord_in_range(region_x) || !coord_in_range(region_z) {
        return Err(RegionError::InvalidFormat);
    }
    if data.len() < 8192 {
        return Err(RegionError::InvalidFormat);
    }
    let mut region = Region::new(region_x, region_z);
    region.mtime = mtime;
    let mut i: usize = 0;
    while i < 1024
        invariant
            i <= 1024,
            data@.len() >= 8192,
            region_coord_in_range(region_x as int),
            region_coord_in_range(region_z as int),
            region.wf(),
            region.region_x == region_x,
            region.region_z == region_z,
            region.mtime == mtime,
            first_slot_failure(data@, external_views(files@), region_x, region_z, i as int).is_none(),
            forall|k: usize|
                region@.chunks.contains_key(k) <==> k < i && sector_chunks(
                    data@,
                    external_views(files@),
                    region_x,
                    region_z,
                ).contains_key(k),
            forall|k: usize| #[trigger]
                region@.chunks.contains_key(k) ==> region@.chunks[k] == sector_chunks(
                    data@,
                    external_views(files@),
                    region_x,
                    region_z,
                )[k],
            forall|k: int|
                0 <= k < i ==> #[trigger] region@.timestamps[k] == sector_timestamps(
                    data@,
                    external_views(files@),
                    region_x,
                    region_z,
                )[k],
            forall|k: int| i <= k < 1024 ==> #[trigger] region@.timestamps[k] == 0,
        decreases 1024 - i,
    {
        let timestamp: u32 = read_u32_be(data, 4096 + i * 4);
        match read_anvil_slot(data, files, region_x, region_z, i) {
            Ok(Some(payload)) => {
                let (chunk_x, chunk_z) = chunk_position(region_x, region_z, i);
                let chunk = Chunk::new(payload, chunk_x, chunk_z);
                region.set_chunk(i, chunk, timestamp);
            },
            Ok(None) => {},
            Err(e) => {
                proof {
                    lemma_first_failure_stays(
                        data@,
                        external_views(files@),
                        region_x,
                        region_z,
                        i + 1,
                        1024,
                    );
                }
                return Err(e);
            },
        }
        i += 1;
    }
    assert(region@.chunks =~= sector_chunks(data@, external_views(files@), region_x, region_z));
    assert(region@.timestamps =~= sector_timestamps(
        data@,
        external_views(files@),
        region_x,
        region_z,
    ));
    proof {
        lemma_sector_region_is_coherent(
            data@,
            external_views(files@),
            region_x,
            region_z,
            mtime,
            region@,
        );
    }
    Ok(region)
}

/// The largest zlib stream that fits into 255 sectors together with the five header bytes.
pub const MAX_INLINE_STREAM: usize = 1044475;

/// Whether a zlib stream of this length is too long to be stored in the main file.
pub open spec fn stream_overflows(len: int) -> bool {
    sectors_for(5 + len) > 255
}

/// The sectors that a chunk with the zlib stream `stream` takes in the main file: the
/// stored length (the stream's length and one), code 2, the stream, and zeros up to the
/// next sector boundary. A stream that needs more than 255 sectors leaves one placeholder
/// sector with the stored length 1 and code 130.
pub open spec fn stream_run(stream: Seq<u8>) -> Seq<u8> {
    if stream_overflows(stream.len() as int) {
        u32_be(1).push(130u8) + zeros(4091)
    } else {
        u32_be(stream.len() as int + 1).push(2u8) + stream + zeros(
            sectors_for(5 + stream.len() as int) * 4096 - 5 - stream.len(),
        )
    }
}

/// The zlib stream of the chunk in slot `i` of `r`, where there is a chunk and the
/// compressor gives one.
pub open spec fn slot_stream(r: RegionView, level: u32, i: int) -> Option<Seq<u8>> {
    if r.chunks.contains_key(i as usize) {
        zlib_deflated(r.chunks[i as usize].payload, level)
    } else {
        None
    }
}

/// The run that slot `i` of `r` takes in the main file; nothing for an empty slot.
pub open spec fn slot_run(r: RegionView, level: u32, i: int) -> Seq<u8> {
    match slot_stream(r, level, i) {
        Some(stream) => stream_run(stream),
        None => Seq::empty(),
    }
}

/// The number of sectors that slot `i` of `r` takes in the main file.
pub open spec fn slot_sectors(r: RegionView, level: u32, i: int) -> int {
    slot_run(r, level, i).len() as int / 4096
}

/// The number of the first sector of slot `n`: the runs follow the two tables in slot
/// order.
pub open spec fn first_sector(r: RegionView, level: u32, n: int) -> int
    decreases n,
{
    if n <= 0 {
        2
    } else {
        first_sector(r, level, n - 1) + slot_sectors(r, level, n - 1)
    }
}

/// The location entry of slot `i` of `r`: first sector and sector count of its run, or
/// four zero bytes for an empty slot.
pub open spec fn slot_location(r: RegionView, level: u32, i: int) -> Seq<u8> {
    if r.chunks.contains_key(i as usize) {
        u24_be(first_sector(r, level, i)).push(slot_sectors(r, level, i) as u8)
    } else {
        zeros(4)
    }
}

/// The location entries of the slots below `n`.
pub open spec fn location_table(r: RegionView, level: u32, n: int) -> Seq<u8>
    decreases n,
{
    if n <= 0 {
        Seq::empty()
    } else {
        location_table(r, level, n - 1) + slot_location(r, level, n - 1)
    }
}

/// The timestamps of the slots below `n`, four bytes each.
pub open spec fn timestamp_table(r: RegionView, n: int) -> Seq<u8>
    decreases n,
{
    if n <= 0 {
        Seq::empty()
    } else {
        timestamp_table(r, n - 1) + u32_be(r.timestamps[n - 1] as int)
    }
}

/// The runs of the slots below `n`, one after the other.
pub open spec fn sector_runs(r: RegionView, level: u32, n: int) -> Seq<u8>
    decreases n,
{
    if n <= 0 {
        Seq::empty()
    } else {
        sector_runs(r, level, n - 1) + slot_run(r, level, n - 1)
    }
}

/// The main file of `r`: the location table, the timestamp table, and the runs.
pub open spec fn sector_file(r: RegionView, level: u32) -> Seq<u8> {
    location_table(r, level, 1024) + timestamp_table(r, 1024) + sector_runs(r, level, 1024)
}

/// The files of their own that the chunks in the slots below `n` need: one for each whose
/// stream overflows, in slot order, named by the coordinates that the slot has in the
/// region.
pub open spec fn overflow_files(r: RegionView, level: u32, n: int) -> Seq<ExternalChunkView>
    decreases n,
{
    if n <= 0 {
        Seq::empty()
    } else {
        let below = overflow_files(r, level, n - 1);
        match slot_stream(r, level, n - 1) {
            Some(stream) => if stream_overflows(stream.len() as int) {
                below.push(
                    ExternalChunkView {
                        x: slot_coords(r.region_x as int, r.region_z as int, n - 1).0 as i32,
                        z: slot_coords(r.region_x as int, r.region_z as int, n - 1).1 as i32,
                        data: stream,
                    },
                )
            } else {
                below
            },
            None => below,
        }
    }
}

/// Why the slots below `n` of `r` cannot be written, if they cannot: the first chunk
/// whose compression fails gives an I/O failure, and, where files of their own are not
/// allowed, the first chunk whose stream overflows gives an invalid format.
pub open spec fn sector_failure(r: RegionView, level: u32, allow_external: bool, n: int) -> Option<
    Failure,
>
    decreases n,
{
    if n <= 0 {
        None
    } else {
        match sector_failure(r, level, allow_external, n - 1) {
            Some(failure) => Some(failure),
            None => if r.chunks.contains_key((n - 1) as usize) {
                match slot_stream(r, level, n - 1) {
                    None => Some(Failure::Io),
                    Some(stream) => if stream_overflows(stream.len() as int) && !allow_external {
                        Some(Failure::InvalidFormat)
                    } else {
                        None
                    },
                }
            } else {
                None
            },
        }
    }
}

/// The sectors that a chunk with the zlib stream `stream` takes in the main file.
pub fn encode_run(stream: &[u8]) -> (run: Vec<u8>)
    ensures
        run@ == stream_run(stream@),
        run@.len() == 4096 * if stream_overflows(stream@.len() as int) {
            1
        } else {
            sectors_for(5 + stream@.len() as int)
        },
        0 < run@.len() <= 255 * 4096,
        stream_overflows(stream@.len() as int) == (stream@.len() > MAX_INLINE_STREAM),
{
    let mut run: Vec<u8> = Vec::new();
    if stream.len() > MAX_INLINE_STREAM {
        let header = ChunkDataHeader::new(1, EXTERNAL_FILE_COMPRESSION_TYPE);
        push_bytes(&mut run, header.to_bytes().as_slice());
        push_zeros(&mut run, 4091);
        assert(run@ =~= stream_run(stream@));
    } else {
        let header = ChunkDataHeader::new(stream.len() as u32 + 1, COMPRESSION_TYPE_ZLIB);
        let data_size: usize = 5 + stream.len();
        let sectors_needed: usize = (data_size + 4095) / 4096;
        push_bytes(&mut run, header.to_bytes().as_slice());
        push_bytes(&mut run, stream);
        push_zeros(&mut run, sectors_needed * 4096 - data_size);
        assert(run@ =~= stream_run(stream@));
    }
    run
}

/// The bounds that hold of the running values while the file is laid out.
pub proof fn lemma_sector_bounds(r: RegionView, level: u32, n: int)
    requires
        0 <= n <= 1024,
    ensures
        2 <= first_sector(r, level, n) <= 2 + 255 * n,
        location_table(r, level, n).len() == 4 * n,
        timestamp_table(r, n).len() == 4 * n,
        sector_runs(r, level, n).len() == (first_sector(r, level, n) - 2) * 4096,
        0 <= slot_sectors(r, level, n) <= 255,
        slot_run(r, level, n).len() == slot_sectors(r, level, n) * 4096,
    decreases n,
{
    if n > 0 {
        lemma_sector_bounds(r, level, n - 1);
    }
    match slot_stream(r, level, n) {
        Some(stream) => {
            lemma_run_length(stream);
        },
        None => {},
    }
}

/// A run is a whole number of sectors, between 1 and 255.
pub proof fn lemma_run_length(stream: Seq<u8>)
    ensures
        stream_run(stream).len() == 4096 * if stream_overflows(stream.len() as int) {
            1
        } else {
            sectors_for(5 + stream.len() as int)
        },
        0 < stream_run(stream).len() <= 255 * 4096,
        stream_overflows(stream.len() as int) == (stream.len() > 1044475),
{
}

/// Lays out the main file of `region` and collects the streams that overflow. With
/// `allow_external` unset, an overflow is an error.
fn encode_sectors(region: &Region, compression_level: u32, allow_external: bool) -> (r: Result<
    (Vec<u8>, Vec<ExternalChunk>),
    RegionError,
>)
    requires
        region.wf(),
        compression_level <= 10,
        allow_external ==> region_coord_in_range(region.region_x as int) && region_coord_in_range(
            region.region_z as int,
        ),
    ensures
        match r {
            Ok((file, files)) => {
                &&& sector_failure(region@, compression_level, allow_external, 1024).is_none()
                &&& file@ == sector_file(region@, compression_level)
                &&& external_views(files@) == overflow_files(region@, compression_level, 1024)
                &&& streams_read_back(region@, compression_level)
                &&& !allow_external ==> files@.len() == 0
            },
            Err(e) => sector_failure(region@, compression_level, allow_external, 1024) == Some(
                e.failure(),
            ),
        },
{
    let ghost view = region@;
    let mut locations: Vec<u8> = Vec::new();
    let mut timestamps: Vec<u8> = Vec::new();
    let mut sector_data: Vec<u8> = Vec::new();
    let mut files: Vec<ExternalChunk> = Vec::new();
    let mut current_sector: u32 = 2;
    let mut i: usize = 0;
    while i < 1024
        invariant
            i <= 1024,
            region.wf(),
            view == region@,
            compression_level <= 10,
            allow_external ==> region_coord_in_range(region.region_x as int)
                && region_coord_in_range(region.region_z as int),
            sector_failure(view, compression_level, allow_external, i as int).is_none(),
            locations@ == location_table(view, compression_level, i as int),
            timestamps@ == timestamp_table(view, i as int),
            sector_data@ == sector_runs(view, compression_level, i as int),
            external_views(files@) == overflow_files(view, compression_level, i as int),
            current_sector == first_sector(view, compression_level, i as int),
            !allow_external ==> files@.len() == 0,
            forall|k: usize| #[trigger]
                view.chunks.contains_key(k) && k < i ==> (zlib_deflated(
                    view.chunks[k].payload,
                    compression_level,
                ) matches Some(stream) && zlib_round_trips(view.chunks[k].payload, stream)),
        decreases 1024 - i,
    {
        proof {
            lemma_sector_bounds(view, compression_level, i as int);
        }
        push_u32_be(&mut timestamps, region.timestamp(i));
        match region.get_chunk(i) {
            Some(chunk) => {
                let compressed: Vec<u8> = match zlib_compress(
                    chunk.as_slice(),
                    compression_level,
                ) {
                    Ok(stream) => stream,
                    Err(e) => {
                        proof {
                            lemma_sector_failure_stays(
                                view,
                                compression_level,
                                allow_external,
                                i + 1,
                                1024,
                            );
                        }
                        return Err(RegionError::Io(e));
                    },
                };
                let run: Vec<u8> = encode_run(compressed.as_slice());
                let sectors: u32 = (run.len() / 4096) as u32;
                assert(run@ == slot_run(view, compression_level, i as int));
                if compressed.len() > MAX_INLINE_STREAM {
                    if !allow_external {
                        proof {
                            lemma_sector_failure_stays(
                                view,
                                compression_level,
                                allow_external,
                                i + 1,
                                1024,
                            );
                        }
                        return Err(RegionError::InvalidFormat);
                    }
                    let (chunk_x, chunk_z) = chunk_position(region.region_x, region.region_z, i);
                    let ghost before = external_views(files@);
                    let file = ExternalChunk { x: chunk_x, z: chunk_z, data: compressed };
                    files.push(file);
                    assert(external_views(files@) =~= before.push(file@));
                }
                let location = ChunkLocation::new(current_sector, sectors as u8);
                push_bytes(&mut locations, location.to_bytes().as_slice());
                push_bytes(&mut sector_data, run.as_slice());
                current_sector += sectors;
            },
            None => {
                let location = ChunkLocation::new(0, 0);
                assert(u24_be(0).push(0u8) =~= zeros(4));
                push_bytes(&mut locations, location.to_bytes().as_slice());
                assert(sector_data@ + slot_run(view, compression_level, i as int)
                    =~= sector_data@);
            },
        }
        i += 1;
    }
    let mut file: Vec<u8> = Vec::new();
    push_bytes(&mut file, locations.as_slice());
    push_bytes(&mut file, timestamps.as_slice());
    push_bytes(&mut file, sector_data.as_slice());
    assert(streams_read_back(view, compression_level));
    Ok((file, files))
}

/// Once a slot has given an error, later slots do not change it.
proof fn lemma_sector_failure_stays(
    r: RegionView,
    level: u32,
    allow_external: bool,
    n: int,
    m: int,
)
    requires
        0 <= n <= m,
        sector_failure(r, level, allow_external, n).is_some(),
    ensures
        sector_failure(r, level, allow_external, m) == sector_failure(r, level, allow_external, n),
    decreases m - n,
{
    if n < m {
        lemma_sector_failure_stays(r, level, allow_external, n, m - 1);
    }
}

/// Why `r` cannot be written as a sector file at `level`, if it cannot. A level above 10
/// is none that zlib has, and is a failed compression; where files beside the main file
/// are allowed, region coordinates that leave a chunk no coordinates that fit `i32` are an
/// invalid format, since those coordinates name the files; and then the first chunk that
/// cannot be written decides.
pub open spec fn sector_write_failure(r: RegionView, level: u32, allow_external: bool) -> Option<
    Failure,
> {
    if level > 10 {
        Some(Failure::CompressionFailed { reason: "zlib has no such compression level"@ })
    } else if allow_external && !(region_coord_in_range(r.region_x as int)
        && region_coord_in_range(r.region_z as int)) {
        Some(Failure::InvalidFormat)
    } else {
        sector_failure(r, level, allow_external, 1024)
    }
}

/// The bytes of the sector file for `region`, with every chunk compressed at
/// `compression_level`, and the streams of the chunks that need more than 255 sectors:
/// those go into files of their own, which the caller writes beside the main file. A
/// region whose chunks carry the coordinates of their slots reads back from what was
/// written, but for the timestamps of its empty slots.
pub fn write_anvil_region(region: &Region, compression_level: u32) -> (r: Result<
    (Vec<u8>, Vec<ExternalChunk>),
    RegionError,
>)
    requires
        region.wf(),
    ensures
        match r {
            Ok((file, files)) => {
                &&& sector_write_failure(region@, compression_level, true).is_none()
                &&& file@ == sector_file(region@, compression_level)
                &&& external_views(files@) == overflow_files(region@, compression_level, 1024)
                &&& streams_read_back(region@, compression_level)
                &&& region@.coords_agree() ==> sector_region(
                    file@,
                    external_views(files@),
                    region.region_x,
                    region.region_z,
                    region.mtime,
                ) == Ok::<RegionView, Failure>(without_idle_timestamps(region@))
            },
            Err(e) => sector_write_failure(region@, compression_level, true) == Some(
                e.failure(),
            ),
        },
{
    if compression_level > 10 {
        return Err(
            RegionError::CompressionFailed {
                reason: "zlib has no such compression level".to_owned(),
            },
        );
    }
    if !coord_in_range(region.region_x) || !coord_in_range(region.region_z) {
        return Err(RegionError::InvalidFormat);
    }
    let r = encode_sectors(region, compression_level, true);
    proof {
        if r.is_ok() && region@.coords_agree() {
            lemma_sector_reads_back(region@, compression_level);
        }
    }
    r
}

/// The bytes of the sector file for `region`, for a caller that has no place for files
/// beside it: a chunk that needs more than 255 sectors is an invalid format.
pub fn region_to_anvil_bytes(region: &Region, compression_level: u32) -> (r: Result<
    Vec<u8>,
    RegionError,
>)
    requires
        region.wf(),
    ensures
        match r {
            Ok(file) => {
                &&& sector_write_failure(region@, compression_level, false).is_none()
                &&& file@ == sector_file(region@, compression_level)
                &&& streams_read_back(region@, compression_level)
                &&& region@.coords_agree() && region_coord_in_range(region.region_x as int)
                    && region_coord_in_range(region.region_z as int) ==> sector_region(
                    file@,
                    Seq::empty(),
                    region.region_x,
                    region.region_z,
                    region.mtime,
                ) == Ok::<RegionView, Failure>(without_idle_timestamps(region@))
            },
            Err(e) => sector_write_failure(region@, compression_level, false) == Some(
                e.failure(),
            ),
        },
{
    if compression_level > 10 {
        return Err(
            RegionError::CompressionFailed {
                reason: "zlib has no such compression level".to_owned(),
            },
        );
    }
    match encode_sectors(region, compression_level, false) {
        Ok((file, files)) => {
            proof {
                assert(external_views(files@) =~= Seq::<ExternalChunkView>::empty());
                if region@.coords_agree() && region_coord_in_range(region.region_x as int)
                    && region_coord_in_range(region.region_z as int) {
                    lemma_sector_reads_back(region@, compression_level);
                }
            }
            Ok(file)
        },
        Err(e) => Err(e),
    }
}

} // verus!
