//! What holds of the stream format as a whole: a file that was written reads
//! back as the region it was written from.

use crate::codec::{
    be_u16, be_u32, be_u64, lemma_u16_round_trip, lemma_u32_round_trip, lemma_u64_round_trip,
    u16_be, u32_be, u64_be, zeros,
};
use crate::compress::zstd_round_trips;
use crate::error::Failure;
use crate::linear::{
    byte_as_level, chunks_below, fits_stream, header_bytes, header_of, level_as_byte,
    linear_region, linear_unpacked, meta_size, meta_timestamp, newest_timestamp, payload_start,
    present_count, region_header, region_payloads, region_table, region_unpacked, slot_payload,
    slot_size, stream_file, table_chunks, table_region, table_timestamps, LinearHeader,
};
use crate::region::{region_coord_in_range, RegionView};
use crate::LINEAR_SIGNATURE;
use vstd::prelude::*;

verus! {

/// Whether no chunk of `r` has an empty payload. The stream format marks an empty slot by
/// the size zero, so it cannot hold a chunk without payload.
pub open spec fn payloads_not_empty(r: RegionView) -> bool {
    forall|i: usize| #[trigger] r.chunks.contains_key(i) ==> r.chunks[i].payload.len() > 0
}

/// A header reads back from its 24 bytes, whatever follows them.
pub proof fn lemma_header_round_trip(h: LinearHeader, rest: Seq<u8>)
    ensures
        header_bytes(h).len() == 24,
        header_of(header_bytes(h) + rest) == h,
{
    let s = header_bytes(h) + rest;
    let a = u64_be(h.signature as int);
    let b = u64_be(h.newest_timestamp as int);
    let c = u16_be(h.chunk_count as int);
    let d = u32_be(h.compressed_size as int);
    lemma_u64_round_trip(h.signature as int);
    lemma_u64_round_trip(h.newest_timestamp as int);
    lemma_u16_round_trip(h.chunk_count as int);
    lemma_u32_round_trip(h.compressed_size as int);
    assert(header_bytes(h).len() == 24);
    assert forall|k: int| 0 <= k < 8 implies s[k] == a[k] by {}
    assert forall|k: int| 0 <= k < 8 implies s[9 + k] == b[k] by {}
    assert forall|k: int| 0 <= k < 2 implies s[18 + k] == c[k] by {}
    assert forall|k: int| 0 <= k < 4 implies s[20 + k] == d[k] by {}
    assert(be_u64(s, 0) == be_u64(a, 0));
    assert(be_u64(s, 9) == be_u64(b, 0));
    assert(be_u16(s, 18) == be_u16(c, 0));
    assert(be_u32(s, 20) == be_u32(d, 0));
    assert(s[8] == h.version);
    assert(s[17] == level_as_byte(h.compression_level));
    assert(byte_as_level(level_as_byte(h.compression_level)) == h.compression_level);
}

/// The table of the slots below `n` holds the entry of each slot `i` below `n` at `8 * i`.
proof fn lemma_table_entry(r: RegionView, n: int, i: int)
    requires
        0 <= i < n,
    ensures
        region_table(r, n).len() == 8 * n,
        region_table(r, n).subrange(8 * i, 8 * i + 8) == u32_be(slot_size(r, i)) + u32_be(
            r.timestamps[i] as int,
        ),
    decreases n,
{
    lemma_table_len(r, n - 1);
    let prev = region_table(r, n - 1);
    let entry = u32_be(slot_size(r, n - 1)) + u32_be(r.timestamps[n - 1] as int);
    assert(region_table(r, n) =~= prev + entry);
    if i == n - 1 {
        assert(region_table(r, n).subrange(8 * i, 8 * i + 8) =~= entry);
    } else {
        lemma_table_entry(r, n - 1, i);
        assert(region_table(r, n).subrange(8 * i, 8 * i + 8) =~= prev.subrange(8 * i, 8 * i + 8));
    }
}

/// The table of the slots below `n` takes eight bytes for each.
proof fn lemma_table_len(r: RegionView, n: int)
    requires
        0 <= n,
    ensures
        region_table(r, n).len() == 8 * n,
    decreases n,
{
    if n > 0 {
        lemma_table_len(r, n - 1);
    }
}

/// The payloads of the slots below `n` hold the payload of each slot `i` below `n` behind
/// the payloads of the slots below `i`.
proof fn lemma_payload_place(r: RegionView, n: int, i: int)
    requires
        0 <= i < n,
    ensures
        region_payloads(r, i).len() + slot_payload(r, i).len() == region_payloads(r, i + 1).len(),
        region_payloads(r, i + 1).len() <= region_payloads(r, n).len(),
        region_payloads(r, n).subrange(
            region_payloads(r, i).len() as int,
            region_payloads(r, i + 1).len() as int,
        ) == slot_payload(r, i),
    decreases n,
{
    let prev = region_payloads(r, n - 1);
    if i == n - 1 {
        assert(region_payloads(r, n).subrange(prev.len() as int, region_payloads(r, n).len() as int)
            =~= slot_payload(r, i));
    } else {
        lemma_payload_place(r, n - 1, i);
        assert(region_payloads(r, n).subrange(
            region_payloads(r, i).len() as int,
            region_payloads(r, i + 1).len() as int,
        ) =~= prev.subrange(
            region_payloads(r, i).len() as int,
            region_payloads(r, i + 1).len() as int,
        ));
    }
}

/// What the reader finds in entry `i` of the table that the writer lays out.
proof fn lemma_unpacked_entry(r: RegionView, i: int)
    requires
        r.wf(),
        fits_stream(r),
        0 <= i < 1024,
    ensures
        meta_size(region_unpacked(r), i) == slot_size(r, i),
        meta_timestamp(region_unpacked(r), i) == r.timestamps[i],
{
    let table = region_table(r, 1024);
    let u = region_unpacked(r);
    lemma_table_entry(r, 1024, i);
    let entry = table.subrange(8 * i, 8 * i + 8);
    let size = u32_be(slot_size(r, i));
    let stamp = u32_be(r.timestamps[i] as int);
    assert forall|k: int| 0 <= k < 8 implies u[8 * i + k] == entry[k] by {}
    assert forall|k: int| 0 <= k < 4 implies entry[k] == size[k] by {}
    assert forall|k: int| 0 <= k < 4 implies entry[4 + k] == stamp[k] by {}
    lemma_u32_round_trip(slot_size(r, i));
    lemma_u32_round_trip(r.timestamps[i] as int);
    assert(be_u32(u, 8 * i) == be_u32(size, 0));
    assert(be_u32(u, 8 * i + 4) == be_u32(stamp, 0));
}

/// The reader's running values over the table that the writer lays out.
proof fn lemma_unpacked_sums(r: RegionView, n: int)
    requires
        r.wf(),
        fits_stream(r),
        payloads_not_empty(r),
        0 <= n <= 1024,
    ensures
        payload_start(region_unpacked(r), n) == 8192 + region_payloads(r, n).len(),
        present_count(region_unpacked(r), n) == chunks_below(r, n),
        0 <= chunks_below(r, n) <= n,
    decreases n,
{
    if n > 0 {
        lemma_unpacked_sums(r, n - 1);
        lemma_unpacked_entry(r, n - 1);
        if r.chunks.contains_key((n - 1) as usize) {
            assert(r.chunks[(n - 1) as usize].payload.len() > 0);
        }
    }
}

/// The unpacked frame that the writer lays out for `r` reads back as `r`.
pub proof fn lemma_table_reads_back(r: RegionView)
    requires
        r.wf(),
        r.coords_agree(),
        region_coord_in_range(r.region_x as int),
        region_coord_in_range(r.region_z as int),
        fits_stream(r),
        payloads_not_empty(r),
    ensures
        0 <= chunks_below(r, 1024) <= 1024,
        table_region(
            region_unpacked(r),
            chunks_below(r, 1024) as u16,
            r.region_x,
            r.region_z,
            r.mtime,
        ) == Ok::<RegionView, Failure>(r),
{
    let u = region_unpacked(r);
    lemma_table_len(r, 1024);
    lemma_unpacked_sums(r, 1024);
    let chunks = table_chunks(u, r.region_x, r.region_z);
    assert forall|i: usize| chunks.contains_key(i) <==> r.chunks.contains_key(i) by {
        if i < 1024 {
            lemma_unpacked_entry(r, i as int);
            if r.chunks.contains_key(i) {
                assert(r.chunks[i].payload.len() > 0);
            }
        }
    }
    assert forall|i: usize| r.chunks.contains_key(i) implies #[trigger] chunks[i]
        == r.chunks[i] by {
        lemma_unpacked_sums(r, i as int);
        lemma_unpacked_sums(r, i + 1);
        lemma_payload_place(r, 1024, i as int);
        let payloads = region_payloads(r, 1024);
        let from = region_payloads(r, i as int).len() as int;
        let to = region_payloads(r, i + 1).len() as int;
        assert(u.subrange(8192 + from, 8192 + to) =~= payloads.subrange(from, to));
    }
    assert(chunks =~= r.chunks);
    assert forall|i: int| 0 <= i < 1024 implies table_timestamps(u)[i] == r.timestamps[i] by {
        lemma_unpacked_entry(r, i);
    }
    assert(table_timestamps(u) =~= r.timestamps);
}

/// The parts of a stream file, found again in its bytes.
pub proof fn lemma_stream_file_parts(header: LinearHeader, frame: Seq<u8>)
    ensures
        stream_file(header, frame).len() == 40 + frame.len(),
        header_of(stream_file(header, frame)) == header,
        be_u64(stream_file(header, frame), 32 + frame.len() as int) == LINEAR_SIGNATURE,
        stream_file(header, frame).subrange(32, 32 + frame.len() as int) == frame,
{
    let file = stream_file(header, frame);
    let head = header_bytes(header);
    let sig = u64_be(LINEAR_SIGNATURE as int);
    let rest = zeros(8) + frame + sig;
    lemma_header_round_trip(header, rest);
    lemma_u64_round_trip(LINEAR_SIGNATURE as int);
    lemma_joined_parts(head, zeros(8), frame, sig);
    assert(file == head + zeros(8) + frame + sig);
    lemma_be_u64_of_part(file, 32 + frame.len() as int);
}

/// Four parts joined, found again: the sum of the lengths, and the third and fourth part
/// where they lie.
proof fn lemma_joined_parts(a: Seq<u8>, b: Seq<u8>, c: Seq<u8>, d: Seq<u8>)
    ensures
        (a + b + c + d).len() == a.len() + b.len() + c.len() + d.len(),
        a + b + c + d == a + (b + c + d),
        (a + b + c + d).subrange((a.len() + b.len()) as int, (a.len() + b.len() + c.len()) as int)
            == c,
        (a + b + c + d).subrange(
            (a.len() + b.len() + c.len()) as int,
            (a.len() + b.len() + c.len() + d.len()) as int,
        ) == d,
{
    let all = a + b + c + d;
    assert(all =~= a + (b + c + d));
    assert(all.subrange((a.len() + b.len()) as int, (a.len() + b.len() + c.len()) as int) =~= c);
    assert(all.subrange(
        (a.len() + b.len() + c.len()) as int,
        (a.len() + b.len() + c.len() + d.len()) as int,
    ) =~= d);
}

/// Reading eight bytes at `at` sees only those eight bytes.
proof fn lemma_be_u64_of_part(s: Seq<u8>, at: int)
    requires
        0 <= at,
        at + 8 <= s.len(),
    ensures
        be_u64(s, at) == be_u64(s.subrange(at, at + 8), 0),
{
    let part = s.subrange(at, at + 8);
    assert(part[0] == s[at] && part[1] == s[at + 1] && part[2] == s[at + 2] && part[3] == s[at
        + 3]);
    assert(part[4] == s[at + 4] && part[5] == s[at + 5] && part[6] == s[at + 6] && part[7]
        == s[at + 7]);
}

/// The file that the writer makes of `r` reads back as `r`, provided that unpacking the
/// frame gives back what was packed. The region's chunks must carry the coordinates of
/// their slots and payloads that are neither empty nor longer than their table entry can
/// say. Timestamps come back for every slot, also for the empty ones.
pub proof fn lemma_stream_reads_back(r: RegionView, level: i32, frame: Seq<u8>)
    requires
        r.wf(),
        r.coords_agree(),
        region_coord_in_range(r.region_x as int),
        region_coord_in_range(r.region_z as int),
        fits_stream(r),
        payloads_not_empty(r),
        zstd_round_trips(region_unpacked(r), frame),
    ensures
        linear_region(
            stream_file(region_header(r, level, frame.len() as int), frame),
            r.region_x,
            r.region_z,
            r.mtime,
        ) == Ok::<RegionView, Failure>(r),
{
    let header = region_header(r, level, frame.len() as int);
    let file = stream_file(header, frame);
    lemma_stream_file_parts(header, frame);
    lemma_table_reads_back(r);
    assert(file.len() - 8 == 32 + frame.len() as int);
    assert(header_of(file).chunk_count == chunks_below(r, 1024) as u16);
    assert(linear_unpacked(frame, header.chunk_count) == Ok::<Seq<u8>, Seq<char>>(
        region_unpacked(r),
    ));
}

/// A region that was read from an unpacked frame satisfies what writing it asks for.
pub proof fn lemma_table_region_is_coherent(
    d: Seq<u8>,
    chunk_count: u16,
    region_x: i32,
    region_z: i32,
    mtime: u64,
    r: RegionView,
)
    requires
        table_region(d, chunk_count, region_x, region_z, mtime) == Ok::<RegionView, Failure>(r),
    ensures
        r.wf(),
        r.coords_agree(),
        fits_stream(r),
        payloads_not_empty(r),
        r.region_x == region_x,
        r.region_z == region_z,
        r.mtime == mtime,
        region_coord_in_range(region_x as int),
        region_coord_in_range(region_z as int),
{
    assert(r.chunks == table_chunks(d, region_x, region_z));
    assert(r.timestamps == table_timestamps(d));
    crate::region::lemma_slots_finite(r.chunks.dom());
    assert forall|i: usize| #[trigger] r.chunks.contains_key(i) implies 0
        < r.chunks[i].payload.len() <= u32::MAX by {
        crate::codec::lemma_u32_bytes(d, 8 * i);
        lemma_table_order(d, i as int);
    }
}

/// A region that was read from a stream file satisfies what writing it asks for.
pub proof fn lemma_stream_region_is_coherent(
    file: Seq<u8>,
    region_x: i32,
    region_z: i32,
    mtime: u64,
    r: RegionView,
)
    requires
        linear_region(file, region_x, region_z, mtime) == Ok::<RegionView, Failure>(r),
    ensures
        r.wf(),
        r.coords_agree(),
        fits_stream(r),
        payloads_not_empty(r),
        r.region_x == region_x,
        r.region_z == region_z,
        r.mtime == mtime,
        region_coord_in_range(region_x as int),
        region_coord_in_range(region_z as int),
{
    let header = header_of(file);
    let unpacked = linear_unpacked(file.subrange(32, file.len() - 8), header.chunk_count);
    assert(unpacked.is_ok());
    lemma_table_region_is_coherent(
        unpacked->Ok_0,
        header.chunk_count,
        region_x,
        region_z,
        mtime,
        r,
    );
}

/// The payload of slot `i` lies inside the unpacked frame.
proof fn lemma_table_order(d: Seq<u8>, i: int)
    requires
        0 <= i < 1024,
        d.len() >= 8192,
        payload_start(d, 1024) == d.len(),
    ensures
        8192 <= payload_start(d, i),
        payload_start(d, i) + meta_size(d, i) == payload_start(d, i + 1),
        payload_start(d, i + 1) <= d.len(),
        0 <= meta_size(d, i),
{
    crate::codec::lemma_u32_bytes(d, 8 * i);
    lemma_start_grows(d, 0, i);
    lemma_start_grows(d, i + 1, 1024);
}

/// The payloads are laid out in slot order.
proof fn lemma_start_grows(d: Seq<u8>, i: int, j: int)
    requires
        0 <= i <= j <= 1024,
        d.len() >= 8192,
    ensures
        payload_start(d, i) <= payload_start(d, j),
        i == 0 ==> payload_start(d, i) == 8192,
    decreases j - i,
{
    if i < j {
        lemma_start_grows(d, i, j - 1);
        crate::codec::lemma_u32_bytes(d, 8 * (j - 1));
    }
}

/// Reading, writing and reading again gives what the first reading gave: where `file`
/// reads as `r`, the file that the writer makes of `r` reads as `r` too, provided that
/// unpacking the new frame gives back what was packed.
pub proof fn lemma_stream_reread(
    file: Seq<u8>,
    region_x: i32,
    region_z: i32,
    mtime: u64,
    r: RegionView,
    level: i32,
    frame: Seq<u8>,
)
    requires
        linear_region(file, region_x, region_z, mtime) == Ok::<RegionView, Failure>(r),
        zstd_round_trips(region_unpacked(r), frame),
    ensures
        linear_region(
            stream_file(region_header(r, level, frame.len() as int), frame),
            region_x,
            region_z,
            mtime,
        ) == Ok::<RegionView, Failure>(r),
{
    lemma_stream_region_is_coherent(file, region_x, region_z, mtime, r);
    lemma_stream_reads_back(r, level, frame);
}

} // verus!
