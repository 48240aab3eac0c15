//! The region held in memory: a sparse map from slot index to chunk, one
//! timestamp for each of the 1024 slots, the region's coordinates and the
//! modification time that its file carries.

use smallvec::SmallVec;
use std::collections::HashMap;
use std::time::SystemTime;
use vstd::prelude::*;

verus! {

broadcast use vstd::std_specs::hash::group_hash_axioms;

/// A chunk payload, kept in a `smallvec::SmallVec` that stores up to 8192 bytes inline.
#[verifier::external_body]
pub struct ChunkData {
    inner: SmallVec<[u8; 8192]>,
}

/// The bytes that a [`ChunkData`] holds, in order.
pub uninterp spec fn chunk_data_bytes(data: ChunkData) -> Seq<u8>;

impl View for ChunkData {
    type V = Seq<u8>;

    open spec fn view(&self) -> Seq<u8> {
        chunk_data_bytes(*self)
    }
}

/// `SmallVec::from_vec`: the new vector holds the elements of `data`, in order.
#[verifier::external_body]
fn chunk_data_from_vec(data: Vec<u8>) -> (r: ChunkData)
    ensures
        chunk_data_bytes(r) == data@,
{
    ChunkData { inner: SmallVec::from_vec(data) }
}

/// `SmallVec::from_slice`: the new vector holds a copy of the elements of `data`, in order.
#[verifier::external_body]
fn chunk_data_from_slice(data: &[u8]) -> (r: ChunkData)
    ensures
        chunk_data_bytes(r) == data@,
{
    ChunkData { inner: SmallVec::from_slice(data) }
}

/// `SmallVec::len`: the number of elements held.
#[verifier::external_body]
fn chunk_data_len(data: &ChunkData) -> (n: usize)
    ensures
        n == chunk_data_bytes(*data).len(),
{
    data.inner.len()
}

/// `SmallVec::as_slice`: a slice over the elements held.
#[verifier::external_body]
fn chunk_data_as_slice(data: &ChunkData) -> (r: &[u8])
    ensures
        r@ == chunk_data_bytes(*data),
{
    data.inner.as_slice()
}

/// `SmallVec::clone`: the copy holds the same elements.
#[verifier::external_body]
fn chunk_data_clone(data: &ChunkData) -> (r: ChunkData)
    ensures
        chunk_data_bytes(r) == chunk_data_bytes(*data),
{
    ChunkData { inner: data.inner.clone() }
}

/// The per-slot timestamps, kept in a `smallvec::SmallVec` with room for 1024 inline.
#[verifier::external_body]
pub struct Timestamps {
    inner: SmallVec<[u32; 1024]>,
}

/// The timestamps that a [`Timestamps`] holds, by slot.
pub uninterp spec fn timestamp_values(t: Timestamps) -> Seq<u32>;

impl View for Timestamps {
    type V = Seq<u32>;

    open spec fn view(&self) -> Seq<u32> {
        timestamp_values(*self)
    }
}

/// `SmallVec::from_elem`: the new vector holds `n` copies of the element, here 1024 zeros.
#[verifier::external_body]
fn timestamps_zeroed() -> (r: Timestamps)
    ensures
        timestamp_values(r) == Seq::new(1024, |i: int| 0u32),
{
    Timestamps { inner: SmallVec::from_elem(0, 1024) }
}

/// Indexing a `SmallVec`: the element at `index`.
#[verifier::external_body]
fn timestamps_get(t: &Timestamps, index: usize) -> (r: u32)
    requires
        index < timestamp_values(*t).len(),
    ensures
        r == timestamp_values(*t)[index as int],
{
    t.inner[index]
}

/// Assigning through an index of a `SmallVec`: only the element at `index` changes.
#[verifier::external_body]
fn timestamps_set(t: &mut Timestamps, index: usize, value: u32)
    requires
        index < timestamp_values(*old(t)).len(),
    ensures
        timestamp_values(*final(t)) == timestamp_values(*old(t)).update(index as int, value),
{
    t.inner[index] = value;
}

/// `SmallVec::len`: the number of elements held.
#[verifier::external_body]
fn timestamps_len(t: &Timestamps) -> (n: usize)
    ensures
        n == timestamp_values(*t).len(),
{
    t.inner.len()
}

/// `SystemTime::now`, in whole seconds since the Unix epoch. Nothing is promised of the
/// value; a clock that stands before the epoch gives 0.
#[verifier::external_body]
fn unix_time_now() -> (secs: u64) {
    SystemTime::now().duration_since(SystemTime::UNIX_EPOCH).map(|d| d.as_secs()).unwrap_or(0)
}

/// A chunk: its payload, opaque here, and its absolute coordinates.
pub struct Chunk {
    pub data: ChunkData,
    pub x: i32,
    pub z: i32,
}

/// What a [`Chunk`] stands for.
pub struct ChunkView {
    pub payload: Seq<u8>,
    pub x: i32,
    pub z: i32,
}

impl View for Chunk {
    type V = ChunkView;

    open spec fn view(&self) -> ChunkView {
        ChunkView { payload: self.data@, x: self.x, z: self.z }
    }
}

impl Clone for Chunk {
    fn clone(&self) -> (copy: Self)
        ensures
            copy@ == self@,
    {
        Chunk { data: chunk_data_clone(&self.data), x: self.x, z: self.z }
    }
}

impl Chunk {
    /// A chunk at `(x, z)` that takes over `data` as its payload.
    pub fn new(data: Vec<u8>, x: i32, z: i32) -> (chunk: Chunk)
        ensures
            chunk@ == (ChunkView { payload: data@, x, z }),
    {
        Chunk { data: chunk_data_from_vec(data), x, z }
    }

    /// A chunk at `(x, z)` whose payload is a copy of `data`.
    pub fn from_slice(data: &[u8], x: i32, z: i32) -> (chunk: Chunk)
        ensures
            chunk@ == (ChunkView { payload: data@, x, z }),
    {
        Chunk { data: chunk_data_from_slice(data), x, z }
    }

    /// Length of the payload in bytes.
    pub fn size(&self) -> (n: usize)
        ensures
            n == self@.payload.len(),
    {
        chunk_data_len(&self.data)
    }

    /// The payload.
    pub fn as_slice(&self) -> (bytes: &[u8])
        ensures
            bytes@ == self@.payload,
    {
        chunk_data_as_slice(&self.data)
    }
}

/// The absolute coordinate of the chunk at local position `local` of region `region`.
pub open spec fn chunk_coord(region: int, local: int) -> int {
    region * 32 + local
}

/// Whether every chunk of a region with this coordinate has a coordinate that fits `i32`.
pub open spec fn region_coord_in_range(region: int) -> bool {
    -0x400_0000 <= region < 0x400_0000
}

/// Whether every chunk of a region with the coordinate `coord` has a coordinate that fits
/// `i32`.
pub fn coord_in_range(coord: i32) -> (ok: bool)
    ensures
        ok == region_coord_in_range(coord as int),
{
    -0x400_0000 <= coord && coord < 0x400_0000
}

/// The coordinates that the chunk in slot `index` of region `(region_x, region_z)` has.
pub open spec fn slot_coords(region_x: int, region_z: int, index: int) -> (int, int) {
    (chunk_coord(region_x, index % 32), chunk_coord(region_z, index / 32))
}

/// The slot in which a region keeps the chunk with absolute coordinates `(x, z)`.
pub open spec fn slot_of(x: int, z: int) -> int {
    (z % 32) * 32 + x % 32
}

/// The slot in which a region keeps the chunk with absolute coordinates `(x, z)`.
pub fn local_index(x: i32, z: i32) -> (index: usize)
    ensures
        index == slot_of(x as int, z as int),
        index < 1024,
{
    let local_x: i32 = x & 31;
    let local_z: i32 = z & 31;
    assert(0 <= x & 31 < 32 && (x & 31) as int == x as int % 32) by (bit_vector);
    assert(0 <= z & 31 < 32 && (z & 31) as int == z as int % 32) by (bit_vector);
    (local_z as usize) * 32 + (local_x as usize)
}

/// The absolute coordinates of the chunk in slot `index` of region `(region_x, region_z)`.
pub fn chunk_position(region_x: i32, region_z: i32, index: usize) -> (pos: (i32, i32))
    requires
        region_coord_in_range(region_x as int),
        region_coord_in_range(region_z as int),
        index < 1024,
    ensures
        (pos.0 as int, pos.1 as int) == slot_coords(region_x as int, region_z as int, index as int),
{
    (region_x * 32 + (index % 32) as i32, region_z * 32 + (index / 32) as i32)
}

/// A region in memory. The chunks are kept by slot in a `HashMap` with the standard
/// library's own hasher, the one for which the behaviour of the map is specified.
pub struct Region {
    pub chunks: HashMap<usize, Chunk>,
    pub region_x: i32,
    pub region_z: i32,
    pub mtime: u64,
    pub timestamps: Timestamps,
}

/// What a [`Region`] stands for: the chunks by slot, and a timestamp for every slot.
pub struct RegionView {
    pub chunks: Map<usize, ChunkView>,
    pub region_x: i32,
    pub region_z: i32,
    pub mtime: u64,
    pub timestamps: Seq<u32>,
}

impl View for Region {
    type V = RegionView;

    open spec fn view(&self) -> RegionView {
        RegionView {
            chunks: self.chunks@.map_values(|c: Chunk| c@),
            region_x: self.region_x,
            region_z: self.region_z,
            mtime: self.mtime,
            timestamps: self.timestamps@,
        }
    }
}

impl RegionView {
    /// There are 1024 timestamps, and every chunk sits in one of the 1024 slots.
    pub open spec fn wf(self) -> bool {
        &&& self.timestamps.len() == 1024
        &&& self.chunks.dom().finite()
        &&& forall|i: usize| self.chunks.contains_key(i) ==> i < 1024
    }

    /// Every chunk has the coordinates that its slot and the region's coordinates give it.
    pub open spec fn coords_agree(self) -> bool {
        forall|i: usize| #[trigger]
            self.chunks.contains_key(i) ==> (self.chunks[i].x as int, self.chunks[i].z as int)
                == slot_coords(self.region_x as int, self.region_z as int, i as int)
    }
}

/// A set of slot indices is finite.
pub proof fn lemma_slots_finite(slots: Set<usize>)
    requires
        forall|i: usize| slots.contains(i) ==> i < 1024,
    ensures
        slots.finite(),
{
    let below = Set::new(|i: usize| i < 1024);
    let ints = vstd::set_lib::set_int_range(0, 1024);
    vstd::set_lib::lemma_int_range(0, 1024);
    let mapped = ints.map(|k: int| k as usize);
    ints.lemma_map_finite(|k: int| k as usize);
    assert forall|i: usize| below.contains(i) implies mapped.contains(i) by {
        assert(ints.contains(i as int));
    }
    vstd::set_lib::lemma_len_subset(below, mapped);
    vstd::set_lib::lemma_len_subset(slots, below);
}

/// Those of `slots` that lie below `n`.
pub open spec fn slots_below(slots: Set<usize>, n: usize) -> Set<usize> {
    slots.filter(|k: usize| k < n)
}

/// Raising the bound by one adds the slot at the old bound, where it is in the set.
proof fn lemma_slots_below_step(slots: Set<usize>, n: usize)
    requires
        slots.finite(),
        n < usize::MAX,
    ensures
        slots_below(slots, n).finite(),
        slots_below(slots, (n + 1) as usize).len() == slots_below(slots, n).len() + (if slots.contains(
            n,
        ) {
            1nat
        } else {
            0nat
        }),
{
    let low = slots_below(slots, n);
    let next = slots_below(slots, (n + 1) as usize);
    slots.lemma_len_filter(|k: usize| k < n);
    if slots.contains(n) {
        assert(next =~= low.insert(n));
    } else {
        assert(next =~= low);
    }
}

impl Region {
    /// There are 1024 timestamps, and every chunk sits in one of the 1024 slots.
    pub open spec fn wf(&self) -> bool {
        self@.wf()
    }

    /// Whether the region is well formed. One that this crate's functions made always is;
    /// one put together field by field need not be.
    pub fn is_well_formed(&self) -> (ok: bool)
        ensures
            ok == self.wf(),
    {
        if timestamps_len(&self.timestamps) != 1024 {
            return false;
        }
        let ghost dom = self.chunks@.dom();
        let mut count: usize = 0;
        let mut i: usize = 0;
        proof {
            assert(self@.chunks.dom() =~= dom);
            assert(slots_below(dom, 0) =~= Set::<usize>::empty());
        }
        while i < 1024
            invariant
                i <= 1024,
                count <= i,
                dom == self.chunks@.dom(),
                dom.finite(),
                count == slots_below(dom, i).len(),
            decreases 1024 - i,
        {
            proof {
                lemma_slots_below_step(dom, i);
            }
            if self.chunks.contains_key(&i) {
                count += 1;
            }
            i += 1;
        }
        proof {
            let low = slots_below(dom, 1024);
            dom.lemma_len_filter(|k: usize| k < 1024);
            if count == dom.len() {
                vstd::set_lib::lemma_subset_equality(low, dom);
                assert forall|k: usize| dom.contains(k) implies k < 1024 by {
                    assert(low.contains(k));
                }
            }
            if forall|k: usize| dom.contains(k) ==> k < 1024 {
                assert(low =~= dom);
            }
        }
        count == self.chunks.len()
    }

    /// An empty region at `(region_x, region_z)`: no chunk, every timestamp zero. Its
    /// modification time is the current time, of which nothing is known.
    pub fn new(region_x: i32, region_z: i32) -> (region: Region)
        ensures
            region.wf(),
            region@.chunks == Map::<usize, ChunkView>::empty(),
            region@.timestamps == Seq::new(1024, |i: int| 0u32),
            region@.region_x == region_x,
            region@.region_z == region_z,
    {
        let region = Region {
            chunks: HashMap::new(),
            region_x,
            region_z,
            mtime: unix_time_now(),
            timestamps: timestamps_zeroed(),
        };
        assert(region@.chunks =~= Map::<usize, ChunkView>::empty());
        region
    }

    /// Number of chunks present.
    pub fn chunk_count(&self) -> (n: usize)
        ensures
            n == self@.chunks.len(),
    {
        assert(self@.chunks.dom() =~= self.chunks@.dom());
        self.chunks.len()
    }

    /// The chunk in slot `index`, if there is one.
    pub fn get_chunk(&self, index: usize) -> (found: Option<&Chunk>)
        ensures
            match found {
                Some(chunk) => self@.chunks.contains_key(index) && chunk@ == self@.chunks[index],
                None => !self@.chunks.contains_key(index),
            },
    {
        self.chunks.get(&index)
    }

    /// The timestamp of slot `index`.
    pub fn timestamp(&self, index: usize) -> (ts: u32)
        requires
            self.wf(),
            index < 1024,
        ensures
            ts == self@.timestamps[index as int],
    {
        timestamps_get(&self.timestamps, index)
    }

    /// Records `timestamp` for slot `index`, whether or not a chunk sits there.
    pub fn set_timestamp(&mut self, index: usize, timestamp: u32)
        requires
            old(self).wf(),
            index < 1024,
        ensures
            final(self).wf(),
            final(self)@ == (RegionView {
                timestamps: old(self)@.timestamps.update(index as int, timestamp),
                ..old(self)@
            }),
    {
        timestamps_set(&mut self.timestamps, index, timestamp);
    }

    /// Puts `chunk` into slot `index` and records `timestamp` for the slot.
    pub fn set_chunk(&mut self, index: usize, chunk: Chunk, timestamp: u32)
        requires
            old(self).wf(),
            index < 1024,
        ensures
            final(self).wf(),
            final(self)@ == (RegionView {
                chunks: old(self)@.chunks.insert(index, chunk@),
                timestamps: old(self)@.timestamps.update(index as int, timestamp),
                ..old(self)@
            }),
    {
        timestamps_set(&mut self.timestamps, index, timestamp);
        self.chunks.insert(index, chunk);
        assert(self@.chunks =~= old(self)@.chunks.insert(index, chunk@));
    }

    /// Empties slot `index` and clears its timestamp.
    pub fn remove_chunk(&mut self, index: usize)
        requires
            old(self).wf(),
            index < 1024,
        ensures
            final(self).wf(),
            final(self)@ == (RegionView {
                chunks: old(self)@.chunks.remove(index),
                timestamps: old(self)@.timestamps.update(index as int, 0u32),
                ..old(self)@
            }),
    {
        self.chunks.remove(&index);
        timestamps_set(&mut self.timestamps, index, 0);
        assert(self@.chunks =~= old(self)@.chunks.remove(index));
    }

    /// The chunk with absolute coordinates `(x, z)`, looked up in the slot that they map to.
    pub fn get_chunk_at(&self, x: i32, z: i32) -> (found: Option<&Chunk>)
        ensures
            match found {
                Some(chunk) => self@.chunks.contains_key(slot_of(x as int, z as int) as usize)
                    && chunk@ == self@.chunks[slot_of(x as int, z as int) as usize],
                None => !self@.chunks.contains_key(slot_of(x as int, z as int) as usize),
            },
    {
        let index: usize = local_index(x, z);
        self.get_chunk(index)
    }

    /// Puts `chunk` into the slot that `(x, z)` maps to and records `timestamp` for it.
    pub fn set_chunk_at(&mut self, x: i32, z: i32, chunk: Chunk, timestamp: u32)
        requires
            old(self).wf(),
        ensures
            final(self).wf(),
            final(self)@ == (RegionView {
                chunks: old(self)@.chunks.insert(slot_of(x as int, z as int) as usize, chunk@),
                timestamps: old(self)@.timestamps.update(slot_of(x as int, z as int), timestamp),
                ..old(self)@
            }),
    {
        let index: usize = local_index(x, z);
        self.set_chunk(index, chunk, timestamp);
    }
}

} // verus!
