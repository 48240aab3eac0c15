//! Repair of the payload of a chunk, and of all the chunks of a region. The
//! entities of a chunk stand in the lists `Entities` and `entities` of its root
//! compound. Those that carry custom data are taken out; the others are
//! repaired where they stand.

use crate::enchant::{is_list, lemma_entry_replaced, value_at, with_value};
use crate::entity::{
    carries_custom_data, entities_outcome, fix_entities, should_delete_entity, Repaired,
    RepairedList,
};
use crate::nbt::{
    entry_trees, find_entry, lemma_tree_of_parts, list_trees, nbt_tree, parses_as, NbtError,
    Tree, Value,
};
use crate::region::{Chunk, ChunkView, Region, RegionView};
use crate::stats::{add_clipped, clip, FixStats, Tally};
use crate::uuids::{all_random, UuidSet, UuidSource};
use vstd::prelude::*;

verus! {

/// Those of the first `n` entities of a list that stay in the chunk, in their order.
pub open spec fn kept_entities(list: Seq<Tree>, n: int) -> Seq<Tree>
    decreases n,
{
    if n <= 0 {
        Seq::empty()
    } else if carries_custom_data(list[n - 1]) {
        kept_entities(list, n - 1)
    } else {
        kept_entities(list, n - 1).push(list[n - 1])
    }
}

/// What the repair makes of the value of an `Entities` entry: from a list, the entities
/// that carry custom data are taken out, each of which counts as a fixed entity, and the
/// others are repaired in their order.
pub open spec fn entity_list_outcome(
    t: Tree,
    chunk_x: int,
    chunk_z: int,
    used: Set<Seq<char>>,
    draws: Seq<u128>,
) -> Repaired {
    match t {
        Tree::List(list) => {
            let kept = kept_entities(list, list.len() as int);
            let repaired = entities_outcome(
                kept,
                kept.len() as int,
                chunk_x,
                chunk_z,
                used,
                draws,
            );
            Repaired {
                tree: Tree::List(repaired.trees),
                used: repaired.used,
                tally: Tally {
                    entities_fixed: repaired.tally.entities_fixed + (list.len() - kept.len()) as nat,
                    ..repaired.tally
                },
            }
        },
        _ => Repaired { tree: t, used, tally: Tally::zero() },
    }
}

/// What the repair of the entities under `key` makes of the entries of a root compound.
pub open spec fn entity_field_outcome(
    entries: Seq<(Seq<char>, Tree)>,
    key: Seq<char>,
    chunk_x: int,
    chunk_z: int,
    used: Set<Seq<char>>,
    draws: Seq<u128>,
) -> (Seq<(Seq<char>, Tree)>, Set<Seq<char>>, Tally) {
    match value_at(entries, key) {
        Some(value) => {
            let outcome = entity_list_outcome(value, chunk_x, chunk_z, used, draws);
            (with_value(entries, key, outcome.tree), outcome.used, outcome.tally)
        },
        None => (entries, used, Tally::zero()),
    }
}

/// What the repair makes of the tree of a chunk at `(chunk_x, chunk_z)`: in a root
/// compound, the entities under `Entities` are repaired, and then those under
/// `entities`. A root that is no compound stays as it is.
pub open spec fn chunk_outcome(
    root: Tree,
    chunk_x: int,
    chunk_z: int,
    used: Set<Seq<char>>,
    draws: Seq<u128>,
) -> Repaired {
    match root {
        Tree::Compound(entries) => {
            let first = entity_field_outcome(entries, "Entities"@, chunk_x, chunk_z, used, draws);
            let second = entity_field_outcome(
                first.0,
                "entities"@,
                chunk_x,
                chunk_z,
                first.1,
                draws.skip(first.2.uuids_regenerated as int),
            );
            Repaired {
                tree: Tree::Compound(second.0),
                used: second.1,
                tally: first.2.plus(second.2),
            }
        },
        _ => Repaired { tree: root, used, tally: Tally::zero() },
    }
}

/// Takes the entities that carry custom data out of a list, and says how many they were.
pub fn remove_exploit_entities(entities: &mut Vec<Value>) -> (deleted: usize)
    ensures
        list_trees(final(entities)@) == kept_entities(
            list_trees(old(entities)@),
            old(entities)@.len() as int,
        ),
        deleted == old(entities)@.len() - final(entities)@.len(),
        final(entities)@.len() <= old(entities)@.len(),
{
    let ghost before = list_trees(entities@);
    let total: usize = entities.len();
    let mut seen: usize = 0;
    let mut at: usize = 0;
    while seen < total
        invariant
            seen <= total,
            total == before.len(),
            at <= seen,
            entities@.len() == at + (total - seen),
            list_trees(entities@).subrange(0, at as int) == kept_entities(before, seen as int),
            forall|k: int|
                0 <= k < total - seen ==> #[trigger] list_trees(entities@)[at + k]
                    == before[seen + k],
        decreases total - seen,
    {
        let ghost current = list_trees(entities@);
        assert(current[at + 0] == before[seen + 0]);
        if should_delete_entity(&entities[at]) {
            entities.remove(at);
            proof {
                let now = list_trees(entities@);
                assert(now =~= current.remove(at as int));
                assert(now.subrange(0, at as int) =~= current.subrange(0, at as int));
                assert forall|k: int| 0 <= k < total - (seen + 1) implies #[trigger] now[at
                    + k] == before[seen + 1 + k] by {
                    assert(current[at + (k + 1)] == before[seen + (k + 1)]);
                }
            }
        } else {
            proof {
                assert(current.subrange(0, at + 1) =~= current.subrange(0, at as int).push(
                    current[at as int],
                ));
                assert forall|k: int| 0 <= k < total - (seen + 1) implies #[trigger] current[at
                    + 1 + k] == before[seen + 1 + k] by {
                    assert(current[at + (k + 1)] == before[seen + (k + 1)]);
                }
            }
            at += 1;
        }
        seen += 1;
    }
    assert(list_trees(entities@).subrange(0, at as int) =~= list_trees(entities@));
    total - at
}

/// Repairs the entities under one key of the root compound of a chunk.
fn fix_entity_field(
    root: &mut Vec<(String, Value)>,
    key: &str,
    chunk_x: i32,
    chunk_z: i32,
    used_uuids: &mut UuidSet,
    source: &mut UuidSource,
) -> (stats: FixStats)
    ensures
        final(source).extends(old(source)),
        all_random(final(source).since(old(source))),
        ({
            let draws = final(source).since(old(source));
            let outcome = entity_field_outcome(
                entry_trees(old(root)@),
                key@,
                chunk_x as int,
                chunk_z as int,
                old(used_uuids)@,
                draws,
            );
            &&& entry_trees(final(root)@) == outcome.0
            &&& final(used_uuids)@ == outcome.1
            &&& draws.len() == outcome.2.uuids_regenerated
            &&& stats.counts(outcome.2)
        }),
        stats.files_processed == 0 && stats.chunks_fixed == 0,
{
    let mut stats = FixStats::new();
    let ghost before = root@;
    assert(source.since(old(source)) =~= Seq::<u128>::empty());
    match find_entry(root, key) {
        Some(j) => {
            proof {
                lemma_entry_replaced(before, before, j as int, key@);
                lemma_tree_of_parts(before[j as int].1);
            }
            if is_list(&root[j].1) {
                match &mut root[j].1 {
                    Value::List(entities) => {
                        let ghost all = list_trees(entities@);
                        let deleted: usize = remove_exploit_entities(entities);
                        let repaired = fix_entities(
                            entities,
                            chunk_x,
                            chunk_z,
                            used_uuids,
                            source,
                        );
                        stats = repaired;
                        stats.entities_fixed = add_clipped(repaired.entities_fixed, deleted);
                        proof {
                            lemma_tree_of_parts(Value::List(*entities));
                            let kept = kept_entities(all, all.len() as int);
                            let outcome = entities_outcome(
                                kept,
                                kept.len() as int,
                                chunk_x as int,
                                chunk_z as int,
                                old(used_uuids)@,
                                source.since(old(source)),
                            );
                            assert(deleted == all.len() - kept.len());
                            assert(stats.entities_fixed == clip(
                                outcome.tally.entities_fixed as int + deleted as int,
                            ));
                            assert(entities@.len() == outcome.trees.len());
                            assert(entity_list_outcome(
                                before[j as int].1@,
                                chunk_x as int,
                                chunk_z as int,
                                old(used_uuids)@,
                                source.since(old(source)),
                            ).tree == Tree::List(list_trees(entities@)));
                        }
                    },
                    _ => {},
                }
                proof {
                    lemma_entry_replaced(before, root@, j as int, key@);
                }
            }
        },
        None => {},
    }
    stats
}

/// Repairs the tree of a chunk at `(chunk_x, chunk_z)` where it stands, and says what was
/// done. `used_uuids` holds the identifiers seen so far in the region, and `source` gives
/// the fresh ones.
pub fn fix_chunk_tree(
    root: &mut Value,
    chunk_x: i32,
    chunk_z: i32,
    used_uuids: &mut UuidSet,
    source: &mut UuidSource,
) -> (stats: FixStats)
    ensures
        final(source).extends(old(source)),
        all_random(final(source).since(old(source))),
        ({
            let draws = final(source).since(old(source));
            let outcome = chunk_outcome(
                old(root)@,
                chunk_x as int,
                chunk_z as int,
                old(used_uuids)@,
                draws,
            );
            &&& final(root)@ == outcome.tree
            &&& final(used_uuids)@ == outcome.used
            &&& draws.len() == outcome.tally.uuids_regenerated
            &&& stats.counts(outcome.tally)
        }),
        stats.files_processed == 0 && stats.chunks_fixed == 0,
{
    let mut stats = FixStats::new();
    proof {
        lemma_tree_of_parts(*root);
    }
    assert(source.since(old(source)) =~= Seq::<u128>::empty());
    match root {
        Value::Compound(compound) => {
            let ghost entries0 = entry_trees(compound@);
            let ghost used0 = used_uuids@;
            let first = fix_entity_field(
                compound,
                "Entities",
                chunk_x,
                chunk_z,
                used_uuids,
                source,
            );
            let ghost middle = *source;
            let ghost first_draws = source.since(old(source));
            let second = fix_entity_field(
                compound,
                "entities",
                chunk_x,
                chunk_z,
                used_uuids,
                source,
            );
            proof {
                let draws = source.since(old(source));
                let later = source.since(&middle);
                assert(draws =~= first_draws + later);
                assert(draws.skip(first_draws.len() as int) =~= later);
                assert(first_draws.is_prefix_of(draws));
                lemma_field_ignores_later_draws(
                    entries0,
                    "Entities"@,
                    chunk_x as int,
                    chunk_z as int,
                    used0,
                    first_draws,
                    draws,
                );
                lemma_tree_of_parts(Value::Compound(*compound));
            }
            stats.merge(&first);
            stats.merge(&second);
            proof {
                let draws = source.since(old(source));
                let a = entity_field_outcome(
                    entries0,
                    "Entities"@,
                    chunk_x as int,
                    chunk_z as int,
                    used0,
                    draws,
                );
                let b = entity_field_outcome(
                    a.0,
                    "entities"@,
                    chunk_x as int,
                    chunk_z as int,
                    a.1,
                    draws.skip(a.2.uuids_regenerated as int),
                );
                assert(stats.counts(Tally::zero().plus(a.2).plus(b.2)));
                assert(Tally::zero().plus(a.2).plus(b.2) == a.2.plus(b.2));
            }
        },
        _ => {},
    }
    stats
}

/// The repair of the entities under one key looks only at as many fresh identifiers as
/// it uses.
proof fn lemma_field_ignores_later_draws(
    entries: Seq<(Seq<char>, Tree)>,
    key: Seq<char>,
    chunk_x: int,
    chunk_z: int,
    used: Set<Seq<char>>,
    draws: Seq<u128>,
    more: Seq<u128>,
)
    requires
        draws.is_prefix_of(more),
        entity_field_outcome(entries, key, chunk_x, chunk_z, used, draws).2.uuids_regenerated
            <= draws.len(),
    ensures
        entity_field_outcome(entries, key, chunk_x, chunk_z, used, more) == entity_field_outcome(
            entries,
            key,
            chunk_x,
            chunk_z,
            used,
            draws,
        ),
{
    match value_at(entries, key) {
        Some(Tree::List(list)) => {
            let kept = kept_entities(list, list.len() as int);
            crate::entity::lemma_entities_ignore_later_draws(
                kept,
                kept.len() as int,
                chunk_x,
                chunk_z,
                used,
                draws,
                more,
            );
        },
        _ => {},
    }
}

/// Whether `stats`, the identifiers seen and the tree handed back are what `outcome`
/// says: the tree is handed back where anything was repaired, and as many fresh
/// identifiers were drawn as were used.
pub open spec fn chunk_repaired(
    outcome: Repaired,
    draws: Seq<u128>,
    used: Set<Seq<char>>,
    stats: FixStats,
    repaired: Option<Value>,
) -> bool {
    &&& used == outcome.used
    &&& draws.len() == outcome.tally.uuids_regenerated
    &&& stats.counts(outcome.tally)
    &&& stats.files_processed == 0
    &&& stats.chunks_fixed == 0
    &&& match repaired {
        Some(tree) => outcome.tally.any_repair() && tree@ == outcome.tree,
        None => !outcome.tally.any_repair(),
    }
}

/// Repairs the payload of a chunk: parses it, repairs the tree, and hands the tree back
/// where anything was repaired, for the caller to serialize. A payload that does not
/// parse is an error, and no other is; nothing is seen or drawn then. The payload may
/// parse in more than one way, since a compound lists its entries in no fixed order; the
/// result is the exact repair of the tree that the parsing gave.
pub fn fix_chunk(chunk: &Chunk, used_uuids: &mut UuidSet, source: &mut UuidSource) -> (r: Result<
    (FixStats, Option<Value>),
    NbtError,
>)
    ensures
        final(source).extends(old(source)),
        all_random(final(source).since(old(source))),
        match r {
            Ok((stats, repaired)) => exists|parsed: Tree|
                parses_as(chunk@.payload, parsed) && chunk_repaired(
                    #[trigger] chunk_outcome(
                        parsed,
                        chunk.x as int,
                        chunk.z as int,
                        old(used_uuids)@,
                        final(source).since(old(source)),
                    ),
                    final(source).since(old(source)),
                    final(used_uuids)@,
                    stats,
                    repaired,
                ),
            Err(e) => nbt_tree(chunk@.payload).is_none() && final(used_uuids)@ == old(
                used_uuids,
            )@ && final(source).drawn() == old(source).drawn(),
        },
{
    let mut nbt: Value = match chunk.parse_nbt() {
        Ok(tree) => tree,
        Err(e) => {
            return Err(e);
        },
    };
    let ghost parsed = nbt@;
    let stats = fix_chunk_tree(&mut nbt, chunk.x, chunk.z, used_uuids, source);
    proof {
        let outcome = chunk_outcome(
            parsed,
            chunk.x as int,
            chunk.z as int,
            old(used_uuids)@,
            source.since(old(source)),
        );
        assert(stats.counts(outcome.tally));
    }
    if stats.any_repair() {
        Ok((stats, Some(nbt)))
    } else {
        Ok((stats, None))
    }
}

/// The tree of a chunk, with the coordinates of the chunk.
pub struct ChunkTree {
    pub tree: Tree,
    pub x: int,
    pub z: int,
}

/// What the repair makes of chunk `k` of a region when its turn comes: the chunks before
/// it have left their identifiers, and `draws[k]` are the fresh identifiers for it.
pub open spec fn chunk_in_turn(
    chunks: Seq<ChunkTree>,
    draws: Seq<Seq<u128>>,
    k: int,
    used: Set<Seq<char>>,
) -> Repaired
    decreases k, 2int,
{
    if 0 <= k < chunks.len() {
        chunk_outcome(
            chunks[k].tree,
            chunks[k].x,
            chunks[k].z,
            chunks_outcome(chunks, draws, k, used).used,
            draws[k],
        )
    } else {
        Repaired { tree: Tree::Byte(0), used, tally: Tally::zero() }
    }
}

/// What the repair makes of the first `n` chunks of a region, one after the other, each
/// with the fresh identifiers that were drawn for it. Every chunk in which something was
/// repaired counts as a fixed chunk.
pub open spec fn chunks_outcome(
    chunks: Seq<ChunkTree>,
    draws: Seq<Seq<u128>>,
    n: int,
    used: Set<Seq<char>>,
) -> RepairedList
    decreases n, 1int,
{
    if n <= 0 || n > chunks.len() {
        RepairedList { trees: Seq::empty(), used, tally: Tally::zero() }
    } else {
        let before = chunks_outcome(chunks, draws, n - 1, used);
        let this = chunk_in_turn(chunks, draws, n - 1, used);
        RepairedList {
            trees: before.trees.push(this.tree),
            used: this.used,
            tally: Tally {
                files_processed: 0,
                chunks_fixed: before.tally.chunks_fixed + if this.tally.any_repair() {
                    1nat
                } else {
                    0nat
                },
                entities_fixed: before.tally.entities_fixed + this.tally.entities_fixed,
                enchantments_fixed: before.tally.enchantments_fixed
                    + this.tally.enchantments_fixed,
                uuids_regenerated: before.tally.uuids_regenerated + this.tally.uuids_regenerated,
                positions_fixed: before.tally.positions_fixed + this.tally.positions_fixed,
            },
        }
    }
}

/// The slots below `n` that hold a chunk, in rising order.
pub open spec fn present_slots(chunks: Map<usize, ChunkView>, n: int) -> Seq<usize>
    decreases n,
{
    if n <= 0 {
        Seq::empty()
    } else if chunks.contains_key((n - 1) as usize) {
        present_slots(chunks, n - 1).push((n - 1) as usize)
    } else {
        present_slots(chunks, n - 1)
    }
}

/// The chunks among the first `n` in which something was repaired: for each its slot and
/// its repaired tree, in their order.
pub open spec fn repaired_chunks(
    chunks: Seq<ChunkTree>,
    draws: Seq<Seq<u128>>,
    slots: Seq<usize>,
    n: int,
    used: Set<Seq<char>>,
) -> Seq<(usize, Tree)>
    decreases n,
{
    if n <= 0 || n > chunks.len() {
        Seq::empty()
    } else {
        let before = repaired_chunks(chunks, draws, slots, n - 1, used);
        let this = chunk_in_turn(chunks, draws, n - 1, used);
        if this.tally.any_repair() {
            before.push((slots[n - 1], this.tree))
        } else {
            before
        }
    }
}

/// The fresh identifiers that were drawn for the first `n` chunks, one after the other.
pub open spec fn all_draws(draws: Seq<Seq<u128>>, n: int) -> Seq<u128>
    decreases n,
{
    if n <= 0 || n > draws.len() {
        Seq::empty()
    } else {
        all_draws(draws, n - 1) + draws[n - 1]
    }
}

/// Whether the payload of every chunk of a region parses.
pub open spec fn region_parses(region: RegionView) -> bool {
    forall|i: usize| #[trigger]
        region.chunks.contains_key(i) ==> nbt_tree(region.chunks[i].payload).is_some()
}

/// Whether `used`, `stats` and `repaired` are what the repair of the slots below `i` of a
/// region gives whose chunks parse as `parsed`, with the fresh identifiers `draws` for
/// each chunk: the chunks are those of the region in slot order with their coordinates,
/// each with a tree that its payload may parse as;
/// every chunk used as many fresh identifiers as were drawn for it; one file was
/// processed; and `repaired` lists the chunks in which something was repaired.
pub open spec fn region_progress(
    region: RegionView,
    i: int,
    parsed: Seq<ChunkTree>,
    draws: Seq<Seq<u128>>,
    used: Set<Seq<char>>,
    stats: FixStats,
    repaired: Seq<(usize, Value)>,
) -> bool {
    let slots = present_slots(region.chunks, i);
    let outcome = chunks_outcome(parsed, draws, parsed.len() as int, Set::empty());
    let expected = repaired_chunks(parsed, draws, slots, parsed.len() as int, Set::empty());
    &&& parsed.len() == slots.len()
    &&& draws.len() == slots.len()
    &&& forall|k: int|
        0 <= k < parsed.len() ==> (#[trigger] parsed[k]).x == region.chunks[slots[k]].x
            && parsed[k].z == region.chunks[slots[k]].z && parses_as(
            region.chunks[slots[k]].payload,
            parsed[k].tree,
        )
    &&& forall|k: int|
        0 <= k < parsed.len() ==> (#[trigger] draws[k]).len() == chunk_in_turn(
            parsed,
            draws,
            k,
            Set::empty(),
        ).tally.uuids_regenerated
    &&& used == outcome.used
    &&& stats.counts(Tally { files_processed: 1, ..outcome.tally })
    &&& repaired.len() == expected.len()
    &&& forall|j: int|
        0 <= j < repaired.len() ==> (#[trigger] repaired[j]).0 == expected[j].0
            && repaired[j].1@ == expected[j].1
}

/// Whether `stats` and `repaired` are what the repair of a region gives whose chunks
/// parse as `parsed`, with the fresh identifiers `draws` for each chunk.
pub open spec fn region_repaired(
    region: RegionView,
    parsed: Seq<ChunkTree>,
    draws: Seq<Seq<u128>>,
    stats: FixStats,
    repaired: Seq<(usize, Value)>,
) -> bool {
    region_progress(
        region,
        1024,
        parsed,
        draws,
        chunks_outcome(parsed, draws, parsed.len() as int, Set::empty()).used,
        stats,
        repaired,
    )
}

/// The repair of a chunk takes the repair of a region one slot further.
proof fn lemma_progress_with_chunk(
    region: RegionView,
    i: int,
    parsed: Seq<ChunkTree>,
    draws: Seq<Seq<u128>>,
    used: Set<Seq<char>>,
    stats: FixStats,
    repaired: Seq<(usize, Value)>,
    witness: Tree,
    drawn: Seq<u128>,
    used_after: Set<Seq<char>>,
    chunk_stats: FixStats,
    tree: Option<Value>,
    stats_after: FixStats,
    repaired_after: Seq<(usize, Value)>,
)
    requires
        0 <= i < 1024,
        region.chunks.contains_key(i as usize),
        region_progress(region, i, parsed, draws, used, stats, repaired),
        parses_as(region.chunks[i as usize].payload, witness),
        chunk_repaired(
            chunk_outcome(
                witness,
                region.chunks[i as usize].x as int,
                region.chunks[i as usize].z as int,
                used,
                drawn,
            ),
            drawn,
            used_after,
            chunk_stats,
            tree,
        ),
        stats_after.files_processed == 1,
        stats_after.chunks_fixed == clip(
            stats.chunks_fixed + if tree.is_some() {
                1int
            } else {
                0int
            },
        ),
        stats_after.entities_fixed == clip(stats.entities_fixed + chunk_stats.entities_fixed),
        stats_after.enchantments_fixed == clip(
            stats.enchantments_fixed + chunk_stats.enchantments_fixed,
        ),
        stats_after.uuids_regenerated == clip(
            stats.uuids_regenerated + chunk_stats.uuids_regenerated,
        ),
        stats_after.positions_fixed == clip(stats.positions_fixed + chunk_stats.positions_fixed),
        repaired_after == match tree {
            Some(tree) => repaired.push((i as usize, tree)),
            None => repaired,
        },
    ensures
        region_progress(
            region,
            i + 1,
            parsed.push(
                ChunkTree {
                    tree: witness,
                    x: region.chunks[i as usize].x as int,
                    z: region.chunks[i as usize].z as int,
                },
            ),
            draws.push(drawn),
            used_after,
            stats_after,
            repaired_after,
        ),
        all_draws(draws.push(drawn), draws.len() as int + 1) == all_draws(draws, draws.len() as int)
            + drawn,
{
    let none: Set<Seq<char>> = Set::empty();
    let slots = present_slots(region.chunks, i);
    let slots_after = present_slots(region.chunks, i + 1);
    let chunk = ChunkTree {
        tree: witness,
        x: region.chunks[i as usize].x as int,
        z: region.chunks[i as usize].z as int,
    };
    let longer = parsed.push(chunk);
    let more = draws.push(drawn);
    let n = parsed.len() as int;
    assert(slots_after == slots.push(i as usize));
    lemma_chunks_of_prefix(longer, more, slots_after, parsed, draws, slots, n, none);
    lemma_chunks_counted(parsed, draws, slots, n, none);
    let state = chunks_outcome(parsed, draws, n, none);
    let this = chunk_outcome(witness, chunk.x, chunk.z, used, drawn);
    assert(chunk_in_turn(longer, more, n, none) == this);
    let outcome = chunks_outcome(longer, more, n + 1, none);
    assert(outcome.tally.chunks_fixed == state.tally.chunks_fixed + (if this.tally.any_repair() {
        1nat
    } else {
        0nat
    }));
    let expected = repaired_chunks(longer, more, slots_after, n + 1, none);
    let expected_before = repaired_chunks(parsed, draws, slots, n, none);
    assert(expected == if this.tally.any_repair() {
        expected_before.push((i as usize, this.tree))
    } else {
        expected_before
    });
    assert forall|k: int| 0 <= k < longer.len() implies (#[trigger] more[k]).len()
        == chunk_in_turn(longer, more, k, none).tally.uuids_regenerated by {
        if k < n {
            assert(more[k] == draws[k]);
        }
    }
    assert forall|k: int| 0 <= k < longer.len() implies (#[trigger] longer[k]).x
        == region.chunks[slots_after[k]].x && longer[k].z == region.chunks[slots_after[k]].z
        && parses_as(region.chunks[slots_after[k]].payload, longer[k].tree) by {
        if k < n {
            assert(longer[k] == parsed[k]);
            assert(slots_after[k] == slots[k]);
        }
    }
    assert(stats_after.counts(Tally { files_processed: 1, ..outcome.tally }));
}

/// An empty slot takes the repair of a region one slot further.
proof fn lemma_progress_without_chunk(
    region: RegionView,
    i: int,
    parsed: Seq<ChunkTree>,
    draws: Seq<Seq<u128>>,
    used: Set<Seq<char>>,
    stats: FixStats,
    repaired: Seq<(usize, Value)>,
)
    requires
        0 <= i < 1024,
        !region.chunks.contains_key(i as usize),
        region_progress(region, i, parsed, draws, used, stats, repaired),
    ensures
        region_progress(region, i + 1, parsed, draws, used, stats, repaired),
{
}

/// The repair of the first `n` chunks depends on those chunks and their fresh identifiers
/// only.
pub proof fn lemma_chunks_of_prefix(
    a: Seq<ChunkTree>,
    a_draws: Seq<Seq<u128>>,
    a_slots: Seq<usize>,
    b: Seq<ChunkTree>,
    b_draws: Seq<Seq<u128>>,
    b_slots: Seq<usize>,
    n: int,
    used: Set<Seq<char>>,
)
    requires
        0 <= n <= a.len(),
        n <= b.len(),
        n <= a_draws.len(),
        n <= b_draws.len(),
        forall|i: int| 0 <= i < n ==> a[i] == b[i] && a_draws[i] == b_draws[i],
        forall|i: int| 0 <= i < n ==> a_slots[i] == b_slots[i],
    ensures
        chunks_outcome(a, a_draws, n, used) == chunks_outcome(b, b_draws, n, used),
        repaired_chunks(a, a_draws, a_slots, n, used) == repaired_chunks(
            b,
            b_draws,
            b_slots,
            n,
            used,
        ),
        all_draws(a_draws, n) == all_draws(b_draws, n),
        forall|k: int|
            0 <= k < n ==> chunk_in_turn(a, a_draws, k, used) == chunk_in_turn(
                b,
                b_draws,
                k,
                used,
            ),
    decreases n,
{
    if n > 0 {
        lemma_chunks_of_prefix(a, a_draws, a_slots, b, b_draws, b_slots, n - 1, used);
        assert(a[n - 1] == b[n - 1] && a_draws[n - 1] == b_draws[n - 1]);
        assert(a_slots[n - 1] == b_slots[n - 1]);
        assert(chunk_in_turn(a, a_draws, n - 1, used) == chunk_in_turn(b, b_draws, n - 1, used));
        assert(chunks_outcome(a, a_draws, n, used).trees =~= chunks_outcome(
            b,
            b_draws,
            n,
            used,
        ).trees);
    }
}

/// No more chunks are fixed than there are, and as many trees are given as chunks.
pub proof fn lemma_chunks_counted(
    chunks: Seq<ChunkTree>,
    draws: Seq<Seq<u128>>,
    slots: Seq<usize>,
    n: int,
    used: Set<Seq<char>>,
)
    requires
        0 <= n <= chunks.len(),
    ensures
        chunks_outcome(chunks, draws, n, used).tally.chunks_fixed <= n,
        chunks_outcome(chunks, draws, n, used).tally.chunks_fixed == repaired_chunks(
            chunks,
            draws,
            slots,
            n,
            used,
        ).len(),
        chunks_outcome(chunks, draws, n, used).trees.len() == n,
        chunks_outcome(chunks, draws, n, used).tally.files_processed == 0,
    decreases n,
{
    if n > 0 {
        lemma_chunks_counted(chunks, draws, slots, n - 1, used);
    }
}

/// Repairs all the chunks of a region, in slot order, with one set of seen identifiers
/// for the whole region. Gives the numbers, with one file processed, and for every chunk
/// in which something was repaired its slot and its repaired tree, for the caller to
/// serialize and put back. The repair succeeds where the payload of every chunk parses,
/// and nowhere else: the first payload that does not parse ends it.
pub fn fix_region(region: &Region, source: &mut UuidSource) -> (r: Result<
    (FixStats, Vec<(usize, Value)>),
    NbtError,
>)
    requires
        region.wf(),
    ensures
        final(source).extends(old(source)),
        all_random(final(source).since(old(source))),
        r.is_ok() == region_parses(region@),
        match r {
            Ok((stats, repaired)) => {
                &&& exists|parsed: Seq<ChunkTree>, draws: Seq<Seq<u128>>|
                    #[trigger] region_repaired(region@, parsed, draws, stats, repaired@)
                        && all_draws(draws, draws.len() as int) == final(source).since(
                        old(source),
                    )
                &&& stats.files_processed == 1
                &&& stats.chunks_fixed == repaired@.len()
                &&& forall|k: int|
                    0 <= k < repaired@.len() ==> (#[trigger] repaired@[k]).0 < 1024
                        && region@.chunks.contains_key(repaired@[k].0)
                &&& forall|k: int, m: int|
                    0 <= k < m < repaired@.len() ==> (#[trigger] repaired@[k]).0 < (
                    #[trigger] repaired@[m]).0
            },
            Err(_) => true,
        },
{
    let mut stats = FixStats::new();
    stats.files_processed = 1;
    let mut used_uuids = UuidSet::new();
    let mut repaired: Vec<(usize, Value)> = Vec::new();
    let ghost mut parsed: Seq<ChunkTree> = Seq::empty();
    let ghost mut draws: Seq<Seq<u128>> = Seq::empty();
    let mut i: usize = 0;
    assert(source.since(old(source)) =~= Seq::<u128>::empty());
    while i < 1024
        invariant
            i <= 1024,
            region.wf(),
            source.extends(old(source)),
            all_random(source.since(old(source))),
            stats.files_processed == 1,
            stats.chunks_fixed == repaired@.len(),
            repaired@.len() <= i,
            forall|k: int|
                0 <= k < repaired@.len() ==> (#[trigger] repaired@[k]).0 < i
                    && region@.chunks.contains_key(repaired@[k].0),
            forall|k: int, m: int|
                0 <= k < m < repaired@.len() ==> (#[trigger] repaired@[k]).0 < (
                #[trigger] repaired@[m]).0,
            all_draws(draws, draws.len() as int) == source.since(old(source)),
            region_progress(region@, i as int, parsed, draws, used_uuids@, stats, repaired@),
            forall|k: usize| #[trigger]
                region@.chunks.contains_key(k) && k < i ==> nbt_tree(
                    region@.chunks[k].payload,
                ).is_some(),
        decreases 1024 - i,
    {
        match region.get_chunk(i) {
            Some(chunk) => {
                let ghost earlier = *source;
                let ghost made = source.since(old(source));
                let ghost used_before = used_uuids@;
                let ghost listed = repaired@;
                let ghost stats_before = stats;
                match fix_chunk(chunk, &mut used_uuids, source) {
                    Ok((chunk_stats, tree)) => {
                        let ghost drawn = source.since(&earlier);
                        let ghost witness = choose|witness: Tree|
                            parses_as(chunk@.payload, witness) && chunk_repaired(
                                #[trigger] chunk_outcome(
                                    witness,
                                    chunk.x as int,
                                    chunk.z as int,
                                    used_before,
                                    drawn,
                                ),
                                drawn,
                                used_uuids@,
                                chunk_stats,
                                tree,
                            );
                        let ghost handed = tree;
                        match tree {
                            Some(tree) => {
                                stats.chunks_fixed = stats.chunks_fixed + 1;
                                repaired.push((i, tree));
                            },
                            None => {},
                        }
                        stats.merge(&chunk_stats);
                        proof {
                            assert(source.since(old(source)) =~= made + drawn);
                            lemma_progress_with_chunk(
                                region@,
                                i as int,
                                parsed,
                                draws,
                                used_before,
                                stats_before,
                                listed,
                                witness,
                                drawn,
                                used_uuids@,
                                chunk_stats,
                                handed,
                                stats,
                                repaired@,
                            );
                            parsed = parsed.push(
                                ChunkTree {
                                    tree: witness,
                                    x: region@.chunks[i].x as int,
                                    z: region@.chunks[i].z as int,
                                },
                            );
                            draws = draws.push(drawn);
                        }
                    },
                    Err(e) => {
                        return Err(e);
                    },
                }
            },
            None => {
                proof {
                    lemma_progress_without_chunk(
                        region@,
                        i as int,
                        parsed,
                        draws,
                        used_uuids@,
                        stats,
                        repaired@,
                    );
                }
            },
        }
        i += 1;
    }
    proof {
        assert(region_repaired(region@, parsed, draws, stats, repaired@));
    }
    Ok((stats, repaired))
}

} // verus!
