//! The stream format: a 24-byte header, eight zero bytes, one Zstandard frame
//! and the signature once more. The frame unpacks to a table of 1024 entries of
//! eight bytes (payload size and timestamp of each slot), followed by the
//! payloads of the chunks that are present, in slot order and without gaps.

use crate::codec::{
    be_u16, be_u32, be_u64, push_bytes, push_u32_be, push_u64_be, push_zeros, read_u16_be,
    read_u32_be, read_u64_be, u16_be, u32_be, u64_be, zeros,
};
use crate::compress::{
    zstd_bulk_decoded, zstd_bulk_decompress, zstd_compress, zstd_encoded, zstd_round_trips,
    zstd_stream_decoded, zstd_stream_decompress,
};
use crate::error::{Failure, RegionError};
use crate::region::{
    chunk_position, coord_in_range, region_coord_in_range, slot_coords, Chunk, ChunkView, Region,
    RegionView,
};
use crate::stream_laws::{
    lemma_stream_reads_back, lemma_table_region_is_coherent, payloads_not_empty,
};
use crate::LINEAR_SIGNATURE;
use crate::LINEAR_VERSION;
use vstd::prelude::*;

verus! {

/// Length of the header of a stream file.
pub const LINEAR_HEADER_SIZE: usize = 24;

/// Length of the chunk table at the start of the unpacked frame.
pub const LINEAR_TABLE_SIZE: usize = 8192;

/// The header of a stream file.
#[derive(Debug, Clone, Copy)]
pub struct LinearHeader {
    pub signature: u64,
    pub version: u8,
    pub newest_timestamp: u64,
    pub compression_level: i8,
    pub chunk_count: u16,
    pub compressed_size: u32,
}

/// The signed number that a byte holds in two's complement.
pub open spec fn byte_as_level(b: u8) -> i8 {
    if b < 128 {
        b as i8
    } else {
        (b - 256) as i8
    }
}

/// The byte that holds a signed number in two's complement.
pub open spec fn level_as_byte(level: i8) -> u8 {
    if level >= 0 {
        level as u8
    } else {
        (level + 256) as u8
    }
}

/// The low eight bits of a compression level, as the header stores them.
pub open spec fn truncated_level(level: i32) -> i8 {
    byte_as_level((level as int % 256) as u8)
}

/// The header that the first 24 bytes of `s` hold.
pub open spec fn header_of(s: Seq<u8>) -> LinearHeader {
    LinearHeader {
        signature: be_u64(s, 0) as u64,
        version: s[8],
        newest_timestamp: be_u64(s, 9) as u64,
        compression_level: byte_as_level(s[17]),
        chunk_count: be_u16(s, 18) as u16,
        compressed_size: be_u32(s, 20) as u32,
    }
}

/// The 24 bytes that hold `h`.
pub open spec fn header_bytes(h: LinearHeader) -> Seq<u8> {
    u64_be(h.signature as int) + seq![h.version] + u64_be(h.newest_timestamp as int)
        + seq![level_as_byte(h.compression_level)] + u16_be(h.chunk_count as int) + u32_be(
        h.compressed_size as int,
    )
}

impl LinearHeader {
    /// A header of the version that this crate writes, with the signature in place.
    pub fn new(
        newest_timestamp: u64,
        compression_level: i8,
        chunk_count: u16,
        compressed_size: u32,
    ) -> (header: Self)
        ensures
            header == (LinearHeader {
                signature: LINEAR_SIGNATURE,
                version: LINEAR_VERSION,
                newest_timestamp,
                compression_level,
                chunk_count,
                compressed_size,
            }),
    {
        LinearHeader {
            signature: LINEAR_SIGNATURE,
            version: LINEAR_VERSION,
            newest_timestamp,
            compression_level,
            chunk_count,
            compressed_size,
        }
    }

    /// Reads a header from the first 24 bytes of `data`. Fewer bytes are an invalid format.
    pub fn from_bytes(data: &[u8]) -> (r: Result<Self, RegionError>)
        ensures
            match r {
                Ok(header) => data@.len() >= 24 && header == header_of(data@),
                Err(e) => data@.len() < 24 && e.failure() == Failure::InvalidFormat,
            },
    {
        if data.len() < LINEAR_HEADER_SIZE {
            return Err(RegionError::InvalidFormat);
        }
        let signature: u64 = read_u64_be(data, 0);
        let version: u8 = data[8];
        let newest_timestamp: u64 = read_u64_be(data, 9);
        let level_byte: u8 = data[17];
        let compression_level: i8 = if level_byte < 128 {
            level_byte as i8
        } else {
            (level_byte as i16 - 256) as i8
        };
        let chunk_count: u16 = read_u16_be(data, 18);
        let compressed_size: u32 = read_u32_be(data, 20);
        Ok(
            LinearHeader {
                signature,
                version,
                newest_timestamp,
                compression_level,
                chunk_count,
                compressed_size,
            },
        )
    }

    /// The 24 bytes that hold this header.
    pub fn to_bytes(&self) -> (bytes: [u8; 24])
        ensures
            bytes@ == header_bytes(*self),
    {
        let mut out: Vec<u8> = Vec::new();
        push_u64_be(&mut out, self.signature);
        out.push(self.version);
        push_u64_be(&mut out, self.newest_timestamp);
        let level_byte: u8 = if self.compression_level >= 0 {
            self.compression_level as u8
        } else {
            (self.compression_level as i16 + 256) as u8
        };
        out.push(level_byte);
        crate::codec::push_u16_be(&mut out, self.chunk_count);
        push_u32_be(&mut out, self.compressed_size);
        assert(out@ =~= header_bytes(*self));
        let bytes: [u8; 24] = [
            out[0], out[1], out[2], out[3], out[4], out[5], out[6], out[7], out[8], out[9],
            out[10], out[11], out[12], out[13], out[14], out[15], out[16], out[17], out[18],
            out[19], out[20], out[21], out[22], out[23],
        ];
        assert(bytes@ =~= out@);
        bytes
    }
}

/// One entry of the chunk table: the payload's size in bytes and the slot's timestamp.
#[derive(Debug, Clone, Copy)]
pub struct ChunkMeta {
    pub size: u32,
    pub timestamp: u32,
}

impl ChunkMeta {
    /// Reads an entry from the first eight bytes of `data`.
    pub fn from_bytes(data: &[u8]) -> (meta: Self)
        requires
            data@.len() >= 8,
        ensures
            meta.size == be_u32(data@, 0),
            meta.timestamp == be_u32(data@, 4),
    {
        ChunkMeta { size: read_u32_be(data, 0), timestamp: read_u32_be(data, 4) }
    }

    /// The eight bytes that hold this entry.
    pub fn to_bytes(&self) -> (bytes: [u8; 8])
        ensures
            bytes@ == u32_be(self.size as int) + u32_be(self.timestamp as int),
    {
        let mut out: Vec<u8> = Vec::new();
        push_u32_be(&mut out, self.size);
        push_u32_be(&mut out, self.timestamp);
        let bytes: [u8; 8] = [out[0], out[1], out[2], out[3], out[4], out[5], out[6], out[7]];
        assert(bytes@ =~= out@);
        bytes
    }
}

/// The payload size that entry `i` of the chunk table at the start of `d` gives.
pub open spec fn meta_size(d: Seq<u8>, i: int) -> int {
    be_u32(d, 8 * i)
}

/// The timestamp that entry `i` of the chunk table at the start of `d` gives.
pub open spec fn meta_timestamp(d: Seq<u8>, i: int) -> int {
    be_u32(d, 8 * i + 4)
}

/// How many of the first `n` table entries give a size above zero.
pub open spec fn present_count(d: Seq<u8>, n: int) -> int
    decreases n,
{
    if n <= 0 {
        0
    } else {
        present_count(d, n - 1) + if meta_size(d, n - 1) > 0 {
            1int
        } else {
            0int
        }
    }
}

/// Where the payload of slot `n` starts: behind the table and the payloads of the slots
/// below `n`.
pub open spec fn payload_start(d: Seq<u8>, n: int) -> int
    decreases n,
{
    if n <= 0 {
        8192
    } else {
        payload_start(d, n - 1) + meta_size(d, n - 1)
    }
}

/// The chunks that the unpacked frame `d` holds for region `(region_x, region_z)`: one for
/// each slot whose table entry gives a size above zero.
pub open spec fn table_chunks(d: Seq<u8>, region_x: i32, region_z: i32) -> Map<usize, ChunkView> {
    Map::new(
        |i: usize| i < 1024 && meta_size(d, i as int) > 0,
        |i: usize|
            ChunkView {
                payload: d.subrange(payload_start(d, i as int), payload_start(d, i + 1)),
                x: slot_coords(region_x as int, region_z as int, i as int).0 as i32,
                z: slot_coords(region_x as int, region_z as int, i as int).1 as i32,
            },
    )
}

/// The 1024 timestamps that the table at the start of `d` gives.
pub open spec fn table_timestamps(d: Seq<u8>) -> Seq<u32> {
    Seq::new(1024, |i: int| meta_timestamp(d, i) as u32)
}

/// The region that the unpacked frame `d` holds, or why it holds none: the region's
/// coordinates must leave every chunk coordinates that fit `i32`, the table must be whole,
/// as many entries must be present as `chunk_count` says, and the payloads must fill the
/// rest of `d` exactly.
pub open spec fn table_region(
    d: Seq<u8>,
    chunk_count: u16,
    region_x: i32,
    region_z: i32,
    mtime: u64,
) -> Result<RegionView, Failure> {
    if !region_coord_in_range(region_x as int) || !region_coord_in_range(region_z as int) {
        Err(Failure::InvalidFormat)
    } else if d.len() < 8192 {
        Err(Failure::InvalidFormat)
    } else if present_count(d, 1024) != chunk_count {
        Err(
            Failure::InvalidChunkCount {
                expected: chunk_count,
                found: present_count(d, 1024) as u16,
            },
        )
    } else if payload_start(d, 1024) != d.len() {
        Err(Failure::InvalidFormat)
    } else {
        Ok(
            RegionView {
                chunks: table_chunks(d, region_x, region_z),
                region_x,
                region_z,
                mtime,
                timestamps: table_timestamps(d),
            },
        )
    }
}

/// What the decompression strategies give for `data`, tried in their order: a bulk
/// decompression into no capacity, into 64 MiB, into 16 KiB for each chunk that the header
/// counts, and at last the streaming decoder. The first that succeeds decides; where none
/// does, the text of the last failure is left, which is that of the streaming decoder.
pub open spec fn linear_unpacked(data: Seq<u8>, chunk_count: u16) -> Result<Seq<u8>, Seq<char>> {
    if zstd_bulk_decoded(data, 0).is_some() {
        Ok(zstd_bulk_decoded(data, 0)->Some_0)
    } else if zstd_bulk_decoded(data, 0x400_0000).is_some() {
        Ok(zstd_bulk_decoded(data, 0x400_0000)->Some_0)
    } else if zstd_bulk_decoded(data, (chunk_count * 16384) as usize).is_some() {
        Ok(zstd_bulk_decoded(data, (chunk_count * 16384) as usize)->Some_0)
    } else {
        zstd_stream_decoded(data)
    }
}

/// Whether `file` passes the checks that need no decompression: it is long enough for a
/// header and a trailing signature, both signatures are the expected one, and the version
/// is 1 or 2.
pub open spec fn linear_envelope_ok(file: Seq<u8>) -> bool {
    &&& file.len() >= 32
    &&& header_of(file).signature == LINEAR_SIGNATURE
    &&& (header_of(file).version == 1 || header_of(file).version == 2)
    &&& be_u64(file, file.len() - 8) == LINEAR_SIGNATURE
}

/// The region that the stream file `file` holds for `(region_x, region_z)`, or why it
/// holds none. The checks come in this order: the region's coordinates, length, leading
/// signature, version, trailing signature, room for the frame, decompression, and then
/// the table.
pub open spec fn linear_region(file: Seq<u8>, region_x: i32, region_z: i32, mtime: u64) -> Result<
    RegionView,
    Failure,
> {
    let header = header_of(file);
    let footer = be_u64(file, file.len() - 8) as u64;
    if !region_coord_in_range(region_x as int) || !region_coord_in_range(region_z as int) {
        Err(Failure::InvalidFormat)
    } else if file.len() < 32 {
        Err(Failure::InvalidFormat)
    } else if header.signature != LINEAR_SIGNATURE {
        Err(Failure::InvalidSignature { expected: LINEAR_SIGNATURE, found: header.signature })
    } else if header.version != 1 && header.version != 2 {
        Err(Failure::UnsupportedVersion { version: header.version })
    } else if footer != LINEAR_SIGNATURE {
        Err(Failure::InvalidSignature { expected: LINEAR_SIGNATURE, found: footer })
    } else if file.len() < 40 {
        Err(Failure::InvalidFormat)
    } else {
        match linear_unpacked(file.subrange(32, file.len() - 8), header.chunk_count) {
            Err(reason) => Err(Failure::DecompressionFailed { reason }),
            Ok(d) => table_region(d, header.chunk_count, region_x, region_z, mtime),
        }
    }
}

/// Unpacks the frame of a stream file. Four strategies are tried in turn, and the first
/// that succeeds gives the result; where all four fail, the error carries the text of the
/// last failure.
pub fn decompress_with_retry(compressed_data: &[u8], header: &LinearHeader) -> (r: Result<
    Vec<u8>,
    RegionError,
>)
    ensures
        match r {
            Ok(bytes) => linear_unpacked(compressed_data@, header.chunk_count) == Ok::<
                Seq<u8>,
                Seq<char>,
            >(bytes@),
            Err(e) => linear_unpacked(compressed_data@, header.chunk_count) matches Err(reason)
                && e.failure() == (Failure::DecompressionFailed { reason }),
        },
{
    match zstd_bulk_decompress(compressed_data, 0) {
        Ok(bytes) => {
            return Ok(bytes);
        },
        Err(_) => {},
    }
    match zstd_bulk_decompress(compressed_data, 0x400_0000) {
        Ok(bytes) => {
            return Ok(bytes);
        },
        Err(_) => {},
    }
    let estimated_size: usize = (header.chunk_count as usize) * 1024 * 16;
    match zstd_bulk_decompress(compressed_data, estimated_size) {
        Ok(bytes) => {
            return Ok(bytes);
        },
        Err(_) => {},
    }
    match zstd_stream_decompress(compressed_data) {
        Ok(bytes) => Ok(bytes),
        Err(reason) => Err(RegionError::DecompressionFailed { reason }),
    }
}

/// The entries below `n` cannot count more than `n` chunks nor start the next payload
/// beyond what their sizes allow.
proof fn lemma_table_bounds(d: Seq<u8>, n: int)
    requires
        0 <= n <= 1024,
        d.len() >= 8192,
    ensures
        0 <= present_count(d, n) <= n,
        8192 <= payload_start(d, n) <= 8192 + n * 0xffff_ffff,
    decreases n,
{
    if n > 0 {
        lemma_table_bounds(d, n - 1);
        crate::codec::lemma_u32_bytes(d, 8 * (n - 1));
    }
}

/// The payloads of the slots are laid out in slot order.
proof fn lemma_payload_start_grows(d: Seq<u8>, i: int, j: int)
    requires
        0 <= i <= j <= 1024,
        d.len() >= 8192,
    ensures
        payload_start(d, i) <= payload_start(d, j),
    decreases j - i,
{
    if i < j {
        lemma_payload_start_grows(d, i, j - 1);
        crate::codec::lemma_u32_bytes(d, 8 * (j - 1));
    }
}

/// Builds the region that an unpacked frame holds: reads the table, checks it against the
/// chunk count of the header and against the length of the data, and cuts the payloads
/// out in slot order. A slot without payload keeps its timestamp.
pub fn region_from_table(
    decompressed: &[u8],
    chunk_count: u16,
    region_x: i32,
    region_z: i32,
    mtime: u64,
) -> (r: Result<Region, RegionError>)
    ensures
        match r {
            Ok(region) => region.wf() && region@.coords_agree() && fits_stream(region@)
                && payloads_not_empty(region@) && table_region(
                decompressed@,
                chunk_count,
                region_x,
                region_z,
                mtime,
            ) == Ok::<RegionView, Failure>(region@),
            Err(e) => table_region(decompressed@, chunk_count, region_x, region_z, mtime) == Err::<
                RegionView,
                Failure,
            >(e.failure()),
        },
{
    let ghost d = decompressed@;
    if !coord_in_range(region_x) || !coord_in_range(region_z) {
        return Err(RegionError::InvalidFormat);
    }
    if decompressed.len() < LINEAR_TABLE_SIZE {
        return Err(RegionError::InvalidFormat);
    }
    let mut total_chunk_size: u64 = 0;
    let mut real_chunk_count: u16 = 0;
    let mut i: usize = 0;
    while i < 1024
        invariant
            i <= 1024,
            d == decompressed@,
            d.len() >= 8192,
            real_chunk_count == present_count(d, i as int),
            8192 + total_chunk_size == payload_start(d, i as int),
            total_chunk_size <= i * 0xffff_ffff,
        decreases 1024 - i,
    {
        proof {
            lemma_table_bounds(d, i as int);
            lemma_table_bounds(d, i + 1);
        }
        let size: u32 = read_u32_be(decompressed, i * 8);
        if size > 0 {
            real_chunk_count += 1;
            total_chunk_size += size as u64;
        }
        i += 1;
    }
    if real_chunk_count != chunk_count {
        return Err(
            RegionError::InvalidChunkCount { expected: chunk_count, found: real_chunk_count },
        );
    }
    if 8192 + total_chunk_size != decompressed.len() as u64 {
        return Err(RegionError::InvalidFormat);
    }
    let mut region = Region::new(region_x, region_z);
    region.mtime = mtime;
    let mut offset: usize = LINEAR_TABLE_SIZE;
    let mut i: usize = 0;
    while i < 1024
        invariant
            i <= 1024,
            d == decompressed@,
            d.len() >= 8192,
            payload_start(d, 1024) == d.len(),
            offset == payload_start(d, i as int),
            region_coord_in_range(region_x as int),
            region_coord_in_range(region_z as int),
            region.wf(),
            region.region_x == region_x,
            region.region_z == region_z,
            region.mtime == mtime,
            forall|k: usize|
                region@.chunks.contains_key(k) <==> k < i && table_chunks(
                    d,
                    region_x,
                    region_z,
                ).contains_key(k),
            forall|k: usize| #[trigger]
                region@.chunks.contains_key(k) ==> region@.chunks[k] == table_chunks(
                    d,
                    region_x,
                    region_z,
                )[k],
            forall|k: int|
                0 <= k < i ==> #[trigger] region@.timestamps[k] == table_timestamps(d)[k],
            forall|k: int| i <= k < 1024 ==> #[trigger] region@.timestamps[k] == 0,
        decreases 1024 - i,
    {
        proof {
            lemma_payload_start_grows(d, i + 1, 1024);
            crate::codec::lemma_u32_bytes(d, 8 * i);
        }
        let meta = ChunkMeta::from_bytes(&decompressed[i * 8..i * 8 + 8]);
        assert(d.subrange(8 * i, 8 * i + 8)[0] == d[8 * i]);
        assert(meta.size == meta_size(d, i as int) && meta.timestamp == meta_timestamp(d, i as int))
            by {
            let e = d.subrange(8 * i, 8 * i + 8);
            assert(e[0] == d[8 * i] && e[1] == d[8 * i + 1] && e[2] == d[8 * i + 2] && e[3] == d[8
                * i + 3]);
            assert(e[4] == d[8 * i + 4] && e[5] == d[8 * i + 5] && e[6] == d[8 * i + 6] && e[7]
                == d[8 * i + 7]);
        }
        let ghost before = region@;
        if meta.size > 0 {
            assert(payload_start(d, i + 1) == offset + meta.size);
            assert(d.len() == decompressed.len());
            let chunk_end: usize = offset + meta.size as usize;
            let (x, z) = chunk_position(region_x, region_z, i);
            let chunk = Chunk::from_slice(&decompressed[offset..chunk_end], x, z);
            region.set_chunk(i, chunk, meta.timestamp);
            offset = chunk_end;
        } else {
            region.set_timestamp(i, meta.timestamp);
            assert(region@.chunks == before.chunks);
        }
        i += 1;
    }
    assert(region@.chunks =~= table_chunks(d, region_x, region_z));
    assert(region@.timestamps =~= table_timestamps(d));
    proof {
        lemma_table_region_is_coherent(d, chunk_count, region_x, region_z, mtime, region@);
    }
    Ok(region)
}

/// Reads a region out of the bytes of a stream file. The region's coordinates come from
/// the file's name and `mtime` from its modification time; both are the caller's to find.
pub fn read_linear_region(data: &[u8], region_x: i32, region_z: i32, mtime: u64) -> (r: Result<
    Region,
    RegionError,
>)
    ensures
        match r {
            Ok(region) => region.wf() && region@.coords_agree() && fits_stream(region@)
                && payloads_not_empty(region@) && linear_region(
                data@,
                region_x,
                region_z,
                mtime,
            ) == Ok::<RegionView, Failure>(region@),
            Err(e) => linear_region(data@, region_x, region_z, mtime) == Err::<
                RegionView,
                Failure,
            >(e.failure()),
        },
{
    if !coord_in_range(region_x) || !coord_in_range(region_z) {
        return Err(RegionError::InvalidFormat);
    }
    let file_size: usize = data.len();
    if file_size < LINEAR_HEADER_SIZE + 8 {
        return Err(RegionError::InvalidFormat);
    }
    let header = match LinearHeader::from_bytes(data) {
        Ok(header) => header,
        Err(e) => {
            return Err(e);
        },
    };
    if header.signature != LINEAR_SIGNATURE {
        return Err(
            RegionError::InvalidSignature { expected: LINEAR_SIGNATURE, found: header.signature },
        );
    }
    if header.version != 1 && header.version != 2 {
        return Err(RegionError::UnsupportedVersion { version: header.version });
    }
    let footer_start: usize = file_size - 8;
    let footer_signature: u64 = read_u64_be(data, footer_start);
    if footer_signature != LINEAR_SIGNATURE {
        return Err(
            RegionError::InvalidSignature { expected: LINEAR_SIGNATURE, found: footer_signature },
        );
    }
    let compressed_start: usize = LINEAR_HEADER_SIZE + 8;
    if footer_start < compressed_start {
        return Err(RegionError::InvalidFormat);
    }
    let compressed_data: &[u8] = &data[compressed_start..footer_start];
    let decompressed: Vec<u8> = match decompress_with_retry(compressed_data, &header) {
        Ok(bytes) => bytes,
        Err(e) => {
            return Err(e);
        },
    };
    region_from_table(decompressed.as_slice(), header.chunk_count, region_x, region_z, mtime)
}

/// Whether the bytes of a file look like a stream file: long enough, with the signature
/// at both ends and a version that is 1 or 2. Nothing is decompressed.
pub fn verify_linear_file(data: &[u8]) -> (ok: bool)
    ensures
        ok == linear_envelope_ok(data@),
{
    if data.len() < LINEAR_HEADER_SIZE + 8 {
        return false;
    }
    let header = match LinearHeader::from_bytes(data) {
        Ok(header) => header,
        Err(_) => {
            return false;
        },
    };
    if header.signature != LINEAR_SIGNATURE || (header.version != 1 && header.version != 2) {
        return false;
    }
    let footer_signature: u64 = read_u64_be(data, data.len() - 8);
    footer_signature == LINEAR_SIGNATURE
}

/// The payload size that the table records for slot `i` of `r`: zero where no chunk sits.
pub open spec fn slot_size(r: RegionView, i: int) -> int {
    if r.chunks.contains_key(i as usize) {
        r.chunks[i as usize].payload.len() as int
    } else {
        0
    }
}

/// The payload of slot `i` of `r`, empty where no chunk sits.
pub open spec fn slot_payload(r: RegionView, i: int) -> Seq<u8> {
    if r.chunks.contains_key(i as usize) {
        r.chunks[i as usize].payload
    } else {
        Seq::empty()
    }
}

/// The table entries of the slots below `n`: for each, the payload size and the timestamp.
pub open spec fn region_table(r: RegionView, n: int) -> Seq<u8>
    decreases n,
{
    if n <= 0 {
        Seq::empty()
    } else {
        region_table(r, n - 1) + u32_be(slot_size(r, n - 1)) + u32_be(r.timestamps[n - 1] as int)
    }
}

/// The payloads of the slots below `n`, one after the other.
pub open spec fn region_payloads(r: RegionView, n: int) -> Seq<u8>
    decreases n,
{
    if n <= 0 {
        Seq::empty()
    } else {
        region_payloads(r, n - 1) + slot_payload(r, n - 1)
    }
}

/// What the frame of a stream file holds for `r` before it is compressed.
pub open spec fn region_unpacked(r: RegionView) -> Seq<u8> {
    region_table(r, 1024) + region_payloads(r, 1024)
}

/// The largest timestamp among the chunks in the slots below `n`, zero where there is none.
pub open spec fn newest_timestamp(r: RegionView, n: int) -> int
    decreases n,
{
    if n <= 0 {
        0
    } else if r.chunks.contains_key((n - 1) as usize) && r.timestamps[n - 1] > newest_timestamp(
        r,
        n - 1,
    ) {
        r.timestamps[n - 1] as int
    } else {
        newest_timestamp(r, n - 1)
    }
}

/// How many of the slots below `n` hold a chunk.
pub open spec fn chunks_below(r: RegionView, n: int) -> int
    decreases n,
{
    if n <= 0 {
        0
    } else {
        chunks_below(r, n - 1) + if r.chunks.contains_key((n - 1) as usize) {
            1int
        } else {
            0int
        }
    }
}

/// Whether the stream format can hold `r`: each payload's length fits the four bytes of
/// its table entry.
pub open spec fn fits_stream(r: RegionView) -> bool {
    forall|i: usize| #[trigger] r.chunks.contains_key(i) ==> r.chunks[i].payload.len() <= u32::MAX
}

/// The header that the writer gives the file of `r` when its frame has `frame_len` bytes.
/// The level and the frame length are cut to the width of their fields.
pub open spec fn region_header(r: RegionView, level: i32, frame_len: int) -> LinearHeader {
    LinearHeader {
        signature: LINEAR_SIGNATURE,
        version: LINEAR_VERSION,
        newest_timestamp: newest_timestamp(r, 1024) as u64,
        compression_level: truncated_level(level),
        chunk_count: chunks_below(r, 1024) as u16,
        compressed_size: (frame_len % 0x1_0000_0000) as u32,
    }
}

/// A stream file: the header, eight zero bytes, the frame, and the signature.
pub open spec fn stream_file(header: LinearHeader, frame: Seq<u8>) -> Seq<u8> {
    header_bytes(header) + zeros(8) + frame + u64_be(LINEAR_SIGNATURE as int)
}

/// The low eight bits of `level`, read as a signed number.
pub fn truncate_level(level: i32) -> (low: i8)
    ensures
        low == truncated_level(level),
{
    let byte: u8 = if level >= 0 {
        (level % 256) as u8
    } else {
        let below: i32 = -(level + 1);
        (255 - below % 256) as u8
    };
    assert(byte == (level as int % 256) as u8) by {
        if level < 0 {
            let below = -(level + 1) as int;
            assert(level as int == (-(below / 256) - 1) * 256 + (255 - below % 256));
            vstd::arithmetic::div_mod::lemma_fundamental_div_mod_converse(
                level as int,
                256,
                -(below / 256) - 1,
                255 - below % 256,
            );
        }
    }
    if byte < 128 {
        byte as i8
    } else {
        (byte as i16 - 256) as i8
    }
}

/// The bounds that hold of the running values while the table is built.
proof fn lemma_region_bounds(r: RegionView, n: int)
    requires
        0 <= n <= 1024,
        r.wf(),
    ensures
        0 <= chunks_below(r, n) <= n,
        0 <= newest_timestamp(r, n) <= u32::MAX,
        region_table(r, n).len() == 8 * n,
    decreases n,
{
    if n > 0 {
        lemma_region_bounds(r, n - 1);
    }
}

/// Lays out what the frame of a stream file holds for `region`: the table of 1024 entries,
/// then the payloads in slot order. Also gives the largest timestamp among the chunks and
/// their number, which the header needs.
pub fn region_to_table(region: &Region) -> (r: (Vec<u8>, u32, u16))
    requires
        region.wf(),
        fits_stream(region@),
    ensures
        r.0@ == region_unpacked(region@),
        r.1 == newest_timestamp(region@, 1024),
        r.2 == chunks_below(region@, 1024),
{
    let mut table: Vec<u8> = Vec::new();
    let mut payloads: Vec<u8> = Vec::new();
    let mut newest: u32 = 0;
    let mut chunk_count: u16 = 0;
    let mut i: usize = 0;
    while i < 1024
        invariant
            i <= 1024,
            region.wf(),
            fits_stream(region@),
            table@ == region_table(region@, i as int),
            payloads@ == region_payloads(region@, i as int),
            newest == newest_timestamp(region@, i as int),
            chunk_count == chunks_below(region@, i as int),
        decreases 1024 - i,
    {
        proof {
            lemma_region_bounds(region@, i as int);
        }
        let timestamp: u32 = region.timestamp(i);
        match region.get_chunk(i) {
            Some(chunk) => {
                let size: u32 = chunk.size() as u32;
                let meta = ChunkMeta { size, timestamp };
                push_bytes(&mut table, meta.to_bytes().as_slice());
                push_bytes(&mut payloads, chunk.as_slice());
                if timestamp > newest {
                    newest = timestamp;
                }
                chunk_count += 1;
            },
            None => {
                let meta = ChunkMeta { size: 0, timestamp };
                push_bytes(&mut table, meta.to_bytes().as_slice());
                assert(payloads@ + slot_payload(region@, i as int) =~= payloads@);
            },
        }
        assert(table@ =~= region_table(region@, i + 1));
        i += 1;
    }
    push_bytes(&mut table, payloads.as_slice());
    (table, newest, chunk_count)
}

/// Puts a stream file together: the header, eight zero bytes, the frame, and the
/// signature once more.
pub fn frame_linear_file(header: &LinearHeader, frame: &[u8]) -> (file: Vec<u8>)
    ensures
        file@ == stream_file(*header, frame@),
{
    let mut file: Vec<u8> = Vec::new();
    push_bytes(&mut file, header.to_bytes().as_slice());
    push_zeros(&mut file, 8);
    push_bytes(&mut file, frame);
    push_u64_be(&mut file, LINEAR_SIGNATURE);
    assert(file@ =~= stream_file(*header, frame@));
    file
}

/// Whether the length of every payload of `region` fits the four bytes of its table
/// entry.
pub fn region_fits_stream(region: &Region) -> (ok: bool)
    requires
        region.wf(),
    ensures
        ok == fits_stream(region@),
{
    let mut i: usize = 0;
    while i < 1024
        invariant
            i <= 1024,
            region.wf(),
            forall|k: usize| #[trigger]
                region@.chunks.contains_key(k) && k < i ==> region@.chunks[k].payload.len()
                    <= u32::MAX,
        decreases 1024 - i,
    {
        match region.get_chunk(i) {
            Some(chunk) => {
                if chunk.size() as u64 > 0xffff_ffff {
                    return false;
                }
            },
            None => {},
        }
        i += 1;
    }
    true
}

/// What writing `r` as a stream file at `level` gives: the file, or why there is none. A
/// payload too long for its table entry is an invalid format, and an error of the
/// compressor is a failed compression with the compressor's text.
pub open spec fn stream_written(r: RegionView, level: i32) -> Result<Seq<u8>, Failure> {
    if !fits_stream(r) {
        Err(Failure::InvalidFormat)
    } else {
        match zstd_encoded(region_unpacked(r), level) {
            Ok(frame) => Ok(stream_file(region_header(r, level, frame.len() as int), frame)),
            Err(reason) => Err(Failure::CompressionFailed { reason }),
        }
    }
}

/// The bytes of the stream file for `region`, with the frame compressed at
/// `compression_level`. The header records the largest timestamp among the chunks, the
/// low eight bits of the level, the number of chunks and the frame's length. A region
/// whose chunks carry the coordinates of their slots and no empty payload reads back from
/// the file as it is.
pub fn write_linear_region(region: &Region, compression_level: i32) -> (r: Result<
    Vec<u8>,
    RegionError,
>)
    requires
        region.wf(),
    ensures
        match r {
            Ok(file) => {
                &&& stream_written(region@, compression_level) == Ok::<Seq<u8>, Failure>(file@)
                &&& zstd_round_trips(
                    region_unpacked(region@),
                    zstd_encoded(region_unpacked(region@), compression_level)->Ok_0,
                )
                &&& region@.coords_agree() && payloads_not_empty(region@) && region_coord_in_range(
                    region.region_x as int,
                ) && region_coord_in_range(region.region_z as int) ==> linear_region(
                    file@,
                    region.region_x,
                    region.region_z,
                    region.mtime,
                ) == Ok::<RegionView, Failure>(region@)
            },
            Err(e) => stream_written(region@, compression_level) == Err::<Seq<u8>, Failure>(
                e.failure(),
            ),
        },
{
    if !region_fits_stream(region) {
        return Err(RegionError::InvalidFormat);
    }
    let (unpacked, newest, chunk_count) = region_to_table(region);
    let compressed: Vec<u8> = match zstd_compress(unpacked.as_slice(), compression_level) {
        Ok(frame) => frame,
        Err(reason) => {
            return Err(RegionError::CompressionFailed { reason });
        },
    };
    let header = LinearHeader::new(
        newest as u64,
        truncate_level(compression_level),
        chunk_count,
        ((compressed.len() as u64) % 0x1_0000_0000) as u32,
    );
    proof {
        if region@.coords_agree() && payloads_not_empty(region@) && region_coord_in_range(
            region.region_x as int,
        ) && region_coord_in_range(region.region_z as int) {
            lemma_stream_reads_back(region@, compression_level, compressed@);
        }
    }
    Ok(frame_linear_file(&header, compressed.as_slice()))
}

} // verus!
