//! What holds of the repair of a region: no two entities are left with the
//! same identifier, and a region that was repaired is not repaired again.

use crate::chunk_laws::{chunk_ids, culled, lemma_chunk_again, lemma_chunk_ids_are_new};
use crate::entity::RepairedList;
use crate::entity_laws::{
    draws_are_fresh, ids_are_new, lemma_ids_joined, lemma_ids_split, seen_with,
};
use crate::nbt::{well_keyed, Tree};
use crate::repair::{
    chunk_in_turn, chunk_outcome, chunks_outcome, lemma_chunks_counted, lemma_chunks_of_prefix,
    ChunkTree,
};
use crate::stats::Tally;
use vstd::prelude::*;

verus! {

/// The identifiers of all the entities in the first `n` trees, chunk after chunk.
pub open spec fn region_ids(trees: Seq<Tree>, n: int) -> Seq<Seq<char>>
    decreases n,
{
    if n <= 0 || n > trees.len() {
        Seq::empty()
    } else {
        region_ids(trees, n - 1) + chunk_ids(trees[n - 1])
    }
}

/// Whether the fresh identifiers of each of the first `n` chunks are fresh when its turn
/// comes: all different, not seen before in the region, none that an entity of the
/// chunk has, and as many as the chunk uses.
pub open spec fn draws_fresh_in_turn(
    chunks: Seq<ChunkTree>,
    draws: Seq<Seq<u128>>,
    n: int,
    used: Set<Seq<char>>,
) -> bool {
    forall|k: int|
        0 <= k < n ==> draws_are_fresh(
            #[trigger] draws[k],
            chunks_outcome(chunks, draws, k, used).used,
            chunk_ids(culled(chunks[k].tree)),
        ) && chunk_in_turn(chunks, draws, k, used).tally.uuids_regenerated <= draws[k].len()
}

/// The chunks of a region with the trees that the repair left.
pub open spec fn with_trees(chunks: Seq<ChunkTree>, trees: Seq<Tree>) -> Seq<ChunkTree> {
    Seq::new(trees.len(), |k: int| ChunkTree { tree: trees[k], x: chunks[k].x, z: chunks[k].z })
}

/// The identifiers of the first `n` trees depend on those trees only.
proof fn lemma_region_ids_of_prefix(a: Seq<Tree>, b: Seq<Tree>, n: int)
    requires
        0 <= n <= a.len(),
        n <= b.len(),
        forall|i: int| 0 <= i < n ==> a[i] == b[i],
    ensures
        region_ids(a, n) == region_ids(b, n),
    decreases n,
{
    if n > 0 {
        lemma_region_ids_of_prefix(a, b, n - 1);
    }
}

/// After the repair of a region, the identifiers of all its entities and of their
/// passengers are all different, provided that the fresh identifiers were fresh when
/// they were drawn. They are what the repair adds to the identifiers seen.
pub proof fn lemma_region_ids_are_new(
    chunks: Seq<ChunkTree>,
    draws: Seq<Seq<u128>>,
    n: int,
    used: Set<Seq<char>>,
)
    requires
        0 <= n <= chunks.len(),
        n <= draws.len(),
        draws_fresh_in_turn(chunks, draws, n, used),
    ensures
        ({
            let outcome = chunks_outcome(chunks, draws, n, used);
            let ids = region_ids(outcome.trees, n);
            &&& outcome.trees.len() == n
            &&& ids_are_new(ids, used)
            &&& outcome.used == seen_with(used, ids)
        }),
    decreases n,
{
    let outcome = chunks_outcome(chunks, draws, n, used);
    lemma_chunks_counted(chunks, draws, Seq::empty(), n, used);
    if n == 0 {
        assert(seen_with(used, Seq::<Seq<char>>::empty()) =~= used);
    } else {
        lemma_region_ids_are_new(chunks, draws, n - 1, used);
        lemma_chunks_counted(chunks, draws, Seq::empty(), n - 1, used);
        let before = chunks_outcome(chunks, draws, n - 1, used);
        let this = chunk_in_turn(chunks, draws, n - 1, used);
        assert(draws_are_fresh(draws[n - 1], before.used, chunk_ids(culled(chunks[n - 1].tree))));
        lemma_chunk_ids_are_new(
            chunks[n - 1].tree,
            chunks[n - 1].x,
            chunks[n - 1].z,
            before.used,
            draws[n - 1],
        );
        lemma_region_ids_of_prefix(outcome.trees, before.trees, n - 1);
        let ids_before = region_ids(before.trees, n - 1);
        lemma_ids_joined(ids_before, chunk_ids(this.tree), used);
    }
}

/// A region that was repaired is not repaired again: a second repair leaves every tree as
/// it is and counts nothing. It is assumed that no compound has a key twice, and that
/// the identifiers that the first repair left are new to the second.
pub proof fn lemma_region_again(
    chunks: Seq<ChunkTree>,
    draws: Seq<Seq<u128>>,
    n: int,
    used: Set<Seq<char>>,
    used_again: Set<Seq<char>>,
    draws_again: Seq<Seq<u128>>,
)
    requires
        0 <= n <= chunks.len(),
        n <= draws.len(),
        n <= draws_again.len(),
        forall|k: int|
            0 <= k < n ==> well_keyed((#[trigger] chunks[k]).tree) && -0x8000_0000 <= chunks[k].x
                < 0x8000_0000 && -0x8000_0000 <= chunks[k].z < 0x8000_0000,
        ids_are_new(region_ids(chunks_outcome(chunks, draws, n, used).trees, n), used_again),
    ensures
        ({
            let once = chunks_outcome(chunks, draws, n, used).trees;
            chunks_outcome(with_trees(chunks, once), draws_again, n, used_again) == RepairedList {
                trees: once,
                used: seen_with(used_again, region_ids(once, n)),
                tally: Tally::zero(),
            }
        }),
    decreases n,
{
    let once = chunks_outcome(chunks, draws, n, used).trees;
    lemma_chunks_counted(chunks, draws, Seq::empty(), n, used);
    if n == 0 {
        assert(seen_with(used_again, Seq::<Seq<char>>::empty()) =~= used_again);
        assert(once =~= Seq::<Tree>::empty());
    } else {
        let before = chunks_outcome(chunks, draws, n - 1, used);
        lemma_chunks_counted(chunks, draws, Seq::empty(), n - 1, used);
        let this = chunk_in_turn(chunks, draws, n - 1, used);
        assert(once == before.trees.push(this.tree));
        let ids_before = region_ids(before.trees, n - 1);
        let ids_this = chunk_ids(this.tree);
        lemma_region_ids_of_prefix(once, before.trees, n - 1);
        assert(region_ids(once, n) == ids_before + ids_this);
        lemma_ids_split(ids_before, ids_this, used_again);
        lemma_region_again(chunks, draws, n - 1, used, used_again, draws_again);
        let repaired = with_trees(chunks, once);
        let repaired_before = with_trees(chunks, before.trees);
        lemma_chunks_of_prefix(
            repaired,
            draws_again,
            Seq::empty(),
            repaired_before,
            draws_again,
            Seq::empty(),
            n - 1,
            used_again,
        );
        assert(well_keyed(chunks[n - 1].tree));
        lemma_chunk_again(
            chunks[n - 1].tree,
            chunks[n - 1].x,
            chunks[n - 1].z,
            before.used,
            draws[n - 1],
            seen_with(used_again, ids_before),
            draws_again[n - 1],
        );
        lemma_ids_joined(ids_before, ids_this, used_again);
        let twice = chunks_outcome(repaired, draws_again, n, used_again);
        assert(chunk_in_turn(repaired, draws_again, n - 1, used_again) == chunk_outcome(
            this.tree,
            chunks[n - 1].x,
            chunks[n - 1].z,
            seen_with(used_again, ids_before),
            draws_again[n - 1],
        ));
        assert(twice.trees =~= once);
    }
}

/// Repairing a region twice gives what repairing it once gives: where the first repair
/// starts with no identifier seen and draws fresh identifiers, a second repair of what it
/// left, which starts with no identifier seen either, leaves every tree as it is and
/// counts nothing.
pub proof fn lemma_repair_is_idempotent(
    chunks: Seq<ChunkTree>,
    draws: Seq<Seq<u128>>,
    draws_again: Seq<Seq<u128>>,
)
    requires
        draws.len() == chunks.len(),
        draws_again.len() == chunks.len(),
        draws_fresh_in_turn(chunks, draws, chunks.len() as int, Set::empty()),
        forall|k: int|
            0 <= k < chunks.len() ==> well_keyed((#[trigger] chunks[k]).tree) && -0x8000_0000
                <= chunks[k].x < 0x8000_0000 && -0x8000_0000 <= chunks[k].z < 0x8000_0000,
    ensures
        ({
            let once = chunks_outcome(chunks, draws, chunks.len() as int, Set::empty()).trees;
            let twice = chunks_outcome(
                with_trees(chunks, once),
                draws_again,
                chunks.len() as int,
                Set::empty(),
            );
            &&& twice.trees == once
            &&& twice.tally == Tally::zero()
        }),
{
    lemma_region_ids_are_new(chunks, draws, chunks.len() as int, Set::empty());
    lemma_region_again(
        chunks,
        draws,
        chunks.len() as int,
        Set::empty(),
        Set::empty(),
        draws_again,
    );
}

} // verus!
