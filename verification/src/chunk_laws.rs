//! What holds of the repair of a chunk: no entity with custom data is left,
//! the identifiers that are left are all different, and a chunk that was
//! repaired is not repaired again.

use crate::enchant::{value_at, with_value};
use crate::enchant_laws::{
    lemma_no_key_means_none, lemma_well_keyed_item, lemma_well_keyed_value,
};
use crate::entity::{carries_custom_data, entities_outcome, Repaired};
use crate::entity_laws::{
    draws_are_fresh, ids_are_new, ids_come_from, lemma_entities_again,
    lemma_entities_keep_custom_data, lemma_entities_len, lemma_ids_joined, lemma_ids_split,
    lemma_list_ids_are_new, list_ids, seen_with,
};
use crate::uuids::hyphenated;
use crate::nbt::{
    key_index, keys_differ, lemma_key_index_bounds, lemma_same_keys, well_keyed, Tree,
};
use crate::repair::{chunk_outcome, entity_field_outcome, entity_list_outcome, kept_entities};
use crate::repair_laws::{
    lemma_kept_carry_no_custom_data, lemma_with_value,
};
use crate::stats::Tally;
use vstd::prelude::*;

verus! {

/// The identifiers of the entities of a list and of their passengers; none for a value
/// that is no list.
pub open spec fn entity_list_ids(t: Tree) -> Seq<Seq<char>> {
    match t {
        Tree::List(list) => list_ids(list, list.len() as int),
        _ => Seq::empty(),
    }
}

/// The identifiers of the entities under `key` of a root compound.
pub open spec fn field_ids(entries: Seq<(Seq<char>, Tree)>, key: Seq<char>) -> Seq<Seq<char>> {
    match value_at(entries, key) {
        Some(value) => entity_list_ids(value),
        None => Seq::empty(),
    }
}

/// The identifiers of all the entities of a chunk and of their passengers, in the order
/// in which the repair comes to them: those under `Entities`, then those under
/// `entities`.
pub open spec fn chunk_ids(root: Tree) -> Seq<Seq<char>> {
    match root {
        Tree::Compound(entries) => field_ids(entries, "Entities"@) + field_ids(
            entries,
            "entities"@,
        ),
        _ => Seq::empty(),
    }
}

/// A list of entities without those that carry custom data; any other value as it is.
pub open spec fn culled_list(t: Tree) -> Tree {
    match t {
        Tree::List(list) => Tree::List(kept_entities(list, list.len() as int)),
        _ => t,
    }
}

/// The tree of a chunk without the entities that carry custom data.
pub open spec fn culled(root: Tree) -> Tree {
    match root {
        Tree::Compound(entries) => {
            let first = match value_at(entries, "Entities"@) {
                Some(value) => with_value(entries, "Entities"@, culled_list(value)),
                None => entries,
            };
            Tree::Compound(
                match value_at(first, "entities"@) {
                    Some(value) => with_value(first, "entities"@, culled_list(value)),
                    None => first,
                },
            )
        },
        _ => root,
    }
}

/// The two keys under which the entities of a chunk stand differ.
proof fn lemma_chunk_keys_differ()
    ensures
        "Entities"@ != "entities"@,
{
    reveal_strlit("Entities");
    reveal_strlit("entities");
    assert("Entities"@[0] == 'E' && "entities"@[0] == 'e');
}

/// What the repair of a chunk leaves under its two keys, and what it counts.
proof fn lemma_chunk_entries(
    entries: Seq<(Seq<char>, Tree)>,
    chunk_x: int,
    chunk_z: int,
    used: Set<Seq<char>>,
    draws: Seq<u128>,
)
    ensures
        ({
            let outcome = chunk_outcome(Tree::Compound(entries), chunk_x, chunk_z, used, draws);
            let after = outcome.tree->Compound_0;
            let first = entity_field_outcome(entries, "Entities"@, chunk_x, chunk_z, used, draws);
            let upper = match value_at(entries, "Entities"@) {
                Some(value) => entity_list_outcome(value, chunk_x, chunk_z, used, draws),
                None => Repaired { tree: Tree::Byte(0), used, tally: Tally::zero() },
            };
            let later = draws.skip(upper.tally.uuids_regenerated as int);
            let lower = match value_at(entries, "entities"@) {
                Some(value) => entity_list_outcome(value, chunk_x, chunk_z, upper.used, later),
                None => Repaired { tree: Tree::Byte(0), used: upper.used, tally: Tally::zero() },
            };
            &&& outcome.tree is Compound
            &&& after.len() == entries.len()
            &&& forall|k: int| 0 <= k < entries.len() ==> (#[trigger] after[k]).0 == entries[k].0
            &&& forall|k: int|
                0 <= k < entries.len() && entries[k].0 != "Entities"@ && entries[k].0
                    != "entities"@ ==> #[trigger] after[k] == entries[k]
            &&& value_at(after, "Entities"@) == (match value_at(entries, "Entities"@) {
                Some(value) => Some(upper.tree),
                None => None,
            })
            &&& value_at(after, "entities"@) == (match value_at(entries, "entities"@) {
                Some(value) => Some(lower.tree),
                None => None,
            })
            &&& outcome.used == lower.used
            &&& outcome.tally == upper.tally.plus(lower.tally)
        }),
{
    lemma_chunk_keys_differ();
    let first = entity_field_outcome(entries, "Entities"@, chunk_x, chunk_z, used, draws);
    match value_at(entries, "Entities"@) {
        Some(value) => {
            let upper = entity_list_outcome(value, chunk_x, chunk_z, used, draws);
            lemma_with_value(entries, "Entities"@, upper.tree, "entities"@);
            lemma_with_value(entries, "Entities"@, upper.tree, "Entities"@);
            lemma_key_index_bounds(entries, "Entities"@, 0);
        },
        None => {},
    }
    let later = draws.skip(first.2.uuids_regenerated as int);
    match value_at(first.0, "entities"@) {
        Some(value) => {
            let lower = entity_list_outcome(value, chunk_x, chunk_z, first.1, later);
            lemma_with_value(first.0, "entities"@, lower.tree, "Entities"@);
            lemma_with_value(first.0, "entities"@, lower.tree, "entities"@);
            lemma_key_index_bounds(first.0, "entities"@, 0);
        },
        None => {},
    }
}

/// After the repair of a chunk, no entity in either of its lists carries custom data.
pub proof fn lemma_chunk_has_no_custom_data_left(
    root: Tree,
    chunk_x: int,
    chunk_z: int,
    used: Set<Seq<char>>,
    draws: Seq<u128>,
    key: Seq<char>,
    i: int,
)
    requires
        key == "Entities"@ || key == "entities"@,
        root matches Tree::Compound(entries) && (value_at(
            chunk_outcome(root, chunk_x, chunk_z, used, draws).tree->Compound_0,
            key,
        ) matches Some(Tree::List(list)) && 0 <= i < list.len()),
    ensures
        !carries_custom_data(
            value_at(chunk_outcome(root, chunk_x, chunk_z, used, draws).tree->Compound_0, key)
                ->Some_0->List_0[i],
        ),
{
    let entries = root->Compound_0;
    lemma_chunk_entries(entries, chunk_x, chunk_z, used, draws);
    let upper = match value_at(entries, "Entities"@) {
        Some(value) => entity_list_outcome(value, chunk_x, chunk_z, used, draws),
        None => Repaired { tree: Tree::Byte(0), used, tally: Tally::zero() },
    };
    let (value, seen, later) = if key == "Entities"@ {
        (value_at(entries, key)->Some_0, used, draws)
    } else {
        (
            value_at(entries, key)->Some_0,
            upper.used,
            draws.skip(upper.tally.uuids_regenerated as int),
        )
    };
    match value {
        Tree::List(list) => {
            let kept = kept_entities(list, list.len() as int);
            lemma_entities_len(kept, kept.len() as int, chunk_x, chunk_z, seen, later);
            lemma_kept_carry_no_custom_data(list, list.len() as int, i);
            lemma_entities_keep_custom_data(
                kept,
                kept.len() as int,
                chunk_x,
                chunk_z,
                seen,
                later,
                i,
            );
        },
        _ => {},
    }
}

/// A list in which no entity carries custom data keeps all its entities.
proof fn lemma_all_kept(list: Seq<Tree>, n: int)
    requires
        0 <= n <= list.len(),
        forall|i: int| 0 <= i < n ==> !carries_custom_data(#[trigger] list[i]),
    ensures
        kept_entities(list, n) == list.subrange(0, n),
    decreases n,
{
    if n > 0 {
        lemma_all_kept(list, n - 1);
        assert(list.subrange(0, n) =~= list.subrange(0, n - 1).push(list[n - 1]));
    } else {
        assert(list.subrange(0, 0) =~= Seq::<Tree>::empty());
    }
}

/// The entities that stay of a well-keyed list are a well-keyed list.
proof fn lemma_kept_well_keyed(list: Seq<Tree>, n: int)
    requires
        0 <= n <= list.len(),
        well_keyed(Tree::List(list)),
    ensures
        well_keyed(Tree::List(kept_entities(list, n))),
    decreases n,
{
    let kept = kept_entities(list, n);
    if n > 0 {
        lemma_kept_well_keyed(list, n - 1);
        let before = kept_entities(list, n - 1);
        lemma_well_keyed_item(list, n - 1);
        assert forall|i: int| 0 <= i < kept.len() implies well_keyed(#[trigger] kept[i]) by {
            if i < before.len() {
                lemma_well_keyed_item(before, i);
            }
        }
    }
    assert(Tree::List(kept)->List_0 == kept);
}

/// After the repair of a list of entities of a chunk, the identifiers that are left are
/// all different and none of them was seen before.
proof fn lemma_entity_list_ids_are_new(
    t: Tree,
    chunk_x: int,
    chunk_z: int,
    used: Set<Seq<char>>,
    draws: Seq<u128>,
)
    requires
        draws_are_fresh(draws, used, entity_list_ids(culled_list(t))),
        entity_list_outcome(t, chunk_x, chunk_z, used, draws).tally.uuids_regenerated
            <= draws.len(),
    ensures
        ({
            let outcome = entity_list_outcome(t, chunk_x, chunk_z, used, draws);
            let ids = entity_list_ids(outcome.tree);
            &&& ids_are_new(ids, used)
            &&& outcome.used == seen_with(used, ids)
            &&& ids_come_from(
                ids,
                entity_list_ids(culled_list(t)),
                draws,
                outcome.tally.uuids_regenerated as int,
            )
        }),
{
    match t {
        Tree::List(list) => {
            let kept = kept_entities(list, list.len() as int);
            lemma_list_ids_are_new(kept, kept.len() as int, chunk_x, chunk_z, used, draws);
        },
        _ => {
            assert(seen_with(used, Seq::<Seq<char>>::empty()) =~= used);
        },
    }
}

/// A list of entities of a chunk that was repaired is not repaired again.
proof fn lemma_entity_list_again(
    t: Tree,
    chunk_x: int,
    chunk_z: int,
    used: Set<Seq<char>>,
    draws: Seq<u128>,
    used_again: Set<Seq<char>>,
    draws_again: Seq<u128>,
)
    requires
        well_keyed(t),
        -0x8000_0000 <= chunk_x < 0x8000_0000,
        -0x8000_0000 <= chunk_z < 0x8000_0000,
        ids_are_new(
            entity_list_ids(entity_list_outcome(t, chunk_x, chunk_z, used, draws).tree),
            used_again,
        ),
    ensures
        ({
            let once = entity_list_outcome(t, chunk_x, chunk_z, used, draws).tree;
            entity_list_outcome(once, chunk_x, chunk_z, used_again, draws_again) == Repaired {
                tree: once,
                used: seen_with(used_again, entity_list_ids(once)),
                tally: Tally::zero(),
            }
        }),
{
    match t {
        Tree::List(list) => {
            let kept = kept_entities(list, list.len() as int);
            let n = kept.len() as int;
            let once = entities_outcome(kept, n, chunk_x, chunk_z, used, draws).trees;
            lemma_entities_len(kept, n, chunk_x, chunk_z, used, draws);
            assert forall|i: int| 0 <= i < n implies !carries_custom_data(#[trigger] once[i]) by {
                lemma_kept_carry_no_custom_data(list, list.len() as int, i);
                lemma_entities_keep_custom_data(kept, n, chunk_x, chunk_z, used, draws, i);
            }
            lemma_all_kept(once, n);
            assert(once.subrange(0, n) =~= once);
            lemma_kept_well_keyed(list, list.len() as int);
            lemma_entities_again(
                kept,
                n,
                chunk_x,
                chunk_z,
                used,
                draws,
                used_again,
                draws_again,
            );
        },
        _ => {
            assert(seen_with(used_again, Seq::<Seq<char>>::empty()) =~= used_again);
        },
    }
}

/// What stands under the two keys of a culled root.
proof fn lemma_culled_entries(entries: Seq<(Seq<char>, Tree)>)
    ensures
        culled(Tree::Compound(entries)) is Compound,
        field_ids(culled(Tree::Compound(entries))->Compound_0, "Entities"@) == (match value_at(
            entries,
            "Entities"@,
        ) {
            Some(value) => entity_list_ids(culled_list(value)),
            None => Seq::empty(),
        }),
        field_ids(culled(Tree::Compound(entries))->Compound_0, "entities"@) == (match value_at(
            entries,
            "entities"@,
        ) {
            Some(value) => entity_list_ids(culled_list(value)),
            None => Seq::empty(),
        }),
{
    lemma_chunk_keys_differ();
    let first = match value_at(entries, "Entities"@) {
        Some(value) => with_value(entries, "Entities"@, culled_list(value)),
        None => entries,
    };
    match value_at(entries, "Entities"@) {
        Some(value) => {
            lemma_with_value(entries, "Entities"@, culled_list(value), "entities"@);
            lemma_with_value(entries, "Entities"@, culled_list(value), "Entities"@);
        },
        None => {},
    }
    match value_at(first, "entities"@) {
        Some(value) => {
            lemma_with_value(first, "entities"@, culled_list(value), "Entities"@);
            lemma_with_value(first, "entities"@, culled_list(value), "entities"@);
        },
        None => {},
    }
}

/// After the repair of a chunk, the identifiers of its entities and of their passengers
/// are all different, and none of them was seen before in the region; they are what the
/// repair adds to the identifiers seen; and each of them is an identifier that an entity
/// of the chunk had before, or one of the fresh ones that the repair used. The fresh
/// identifiers must be fresh: all different, not seen before, and none that an entity of
/// the chunk has.
pub proof fn lemma_chunk_ids_are_new(
    root: Tree,
    chunk_x: int,
    chunk_z: int,
    used: Set<Seq<char>>,
    draws: Seq<u128>,
)
    requires
        draws_are_fresh(draws, used, chunk_ids(culled(root))),
        chunk_outcome(root, chunk_x, chunk_z, used, draws).tally.uuids_regenerated <= draws.len(),
    ensures
        ({
            let outcome = chunk_outcome(root, chunk_x, chunk_z, used, draws);
            let ids = chunk_ids(outcome.tree);
            &&& ids_are_new(ids, used)
            &&& outcome.used == seen_with(used, ids)
            &&& ids_come_from(
                ids,
                chunk_ids(culled(root)),
                draws,
                outcome.tally.uuids_regenerated as int,
            )
        }),
{
    let outcome = chunk_outcome(root, chunk_x, chunk_z, used, draws);
    match root {
        Tree::Compound(entries) => {
            lemma_chunk_entries(entries, chunk_x, chunk_z, used, draws);
            lemma_culled_entries(entries);
            let after = outcome.tree->Compound_0;
            let before_upper = field_ids(culled(root)->Compound_0, "Entities"@);
            let before_lower = field_ids(culled(root)->Compound_0, "entities"@);
            let before = chunk_ids(culled(root));
            assert(before == before_upper + before_lower);
            let upper = match value_at(entries, "Entities"@) {
                Some(value) => entity_list_outcome(value, chunk_x, chunk_z, used, draws),
                None => Repaired { tree: Tree::Byte(0), used, tally: Tally::zero() },
            };
            let c = upper.tally.uuids_regenerated as int;
            let later = draws.skip(c);
            let lower = match value_at(entries, "entities"@) {
                Some(value) => entity_list_outcome(value, chunk_x, chunk_z, upper.used, later),
                None => Repaired { tree: Tree::Byte(0), used: upper.used, tally: Tally::zero() },
            };
            let ids_upper = field_ids(after, "Entities"@);
            let ids_lower = field_ids(after, "entities"@);
            assert(draws_are_fresh(draws, used, before_upper)) by {
                assert forall|i: int, k: int|
                    0 <= i < draws.len() && 0 <= k < before_upper.len() implies hyphenated(
                    #[trigger] draws[i],
                ) != #[trigger] before_upper[k] by {
                    assert(before[k] == before_upper[k]);
                }
            }
            match value_at(entries, "Entities"@) {
                Some(value) => {
                    lemma_entity_list_ids_are_new(value, chunk_x, chunk_z, used, draws);
                },
                None => {
                    assert(seen_with(used, Seq::<Seq<char>>::empty()) =~= used);
                },
            }
            assert(draws_are_fresh(later, upper.used, before_lower)) by {
                assert forall|i: int| 0 <= i < later.len() implies !upper.used.contains(
                    hyphenated(#[trigger] later[i]),
                ) by {
                    assert(later[i] == draws[i + c]);
                    let text = hyphenated(later[i]);
                    if ids_upper.contains(text) {
                        let k = choose|k: int| 0 <= k < ids_upper.len() && ids_upper[k] == text;
                        if before_upper.contains(ids_upper[k]) {
                            let m = choose|m: int|
                                0 <= m < before_upper.len() && before_upper[m] == ids_upper[k];
                            assert(before[m] == before_upper[m]);
                        } else {
                            let j = choose|j: int|
                                0 <= j < c && j < draws.len() && ids_upper[k] == hyphenated(
                                    #[trigger] draws[j],
                                );
                        }
                    }
                }
                assert forall|i: int, k: int|
                    0 <= i < later.len() && 0 <= k < before_lower.len() implies hyphenated(
                    #[trigger] later[i],
                ) != #[trigger] before_lower[k] by {
                    assert(later[i] == draws[i + c]);
                    assert(before[before_upper.len() + k] == before_lower[k]);
                }
                assert forall|i: int, j: int| 0 <= i < j < later.len() implies hyphenated(
                    #[trigger] later[i],
                ) != hyphenated(#[trigger] later[j]) by {
                    assert(later[i] == draws[i + c]);
                    assert(later[j] == draws[j + c]);
                }
            }
            match value_at(entries, "entities"@) {
                Some(value) => {
                    lemma_entity_list_ids_are_new(value, chunk_x, chunk_z, upper.used, later);
                },
                None => {
                    assert(seen_with(upper.used, Seq::<Seq<char>>::empty()) =~= upper.used);
                },
            }
            lemma_ids_joined(ids_upper, ids_lower, used);
            let ids = ids_upper + ids_lower;
            assert(chunk_ids(outcome.tree) == ids);
            assert forall|k: int| 0 <= k < ids.len() implies before.contains(#[trigger] ids[k])
                || exists|i: int|
                0 <= i < outcome.tally.uuids_regenerated && i < draws.len() && ids[k]
                    == hyphenated(#[trigger] draws[i]) by {
                if k < ids_upper.len() {
                    assert(ids[k] == ids_upper[k]);
                    if before_upper.contains(ids_upper[k]) {
                        let m = choose|m: int|
                            0 <= m < before_upper.len() && before_upper[m] == ids_upper[k];
                        assert(before[m] == ids[k]);
                    } else {
                        let j = choose|j: int|
                            0 <= j < c && j < draws.len() && ids_upper[k] == hyphenated(
                                #[trigger] draws[j],
                            );
                    }
                } else {
                    let r = k - ids_upper.len();
                    assert(ids[k] == ids_lower[r]);
                    if before_lower.contains(ids_lower[r]) {
                        let m = choose|m: int|
                            0 <= m < before_lower.len() && before_lower[m] == ids_lower[r];
                        assert(before[before_upper.len() + m] == ids[k]);
                    } else {
                        let i = choose|i: int|
                            0 <= i < lower.tally.uuids_regenerated && i < later.len()
                                && ids_lower[r] == hyphenated(#[trigger] later[i]);
                        assert(later[i] == draws[i + c]);
                    }
                }
            }
        },
        _ => {
            assert(seen_with(used, Seq::<Seq<char>>::empty()) =~= used);
        },
    }
}

/// A chunk that was repaired is not repaired again: a second repair leaves the tree as it
/// is and counts nothing. It is assumed that no compound of the chunk has a key twice,
/// and that the identifiers that the first repair left are new to the second, as they
/// are where the first repair drew fresh ones.
pub proof fn lemma_chunk_again(
    root: Tree,
    chunk_x: int,
    chunk_z: int,
    used: Set<Seq<char>>,
    draws: Seq<u128>,
    used_again: Set<Seq<char>>,
    draws_again: Seq<u128>,
)
    requires
        well_keyed(root),
        -0x8000_0000 <= chunk_x < 0x8000_0000,
        -0x8000_0000 <= chunk_z < 0x8000_0000,
        ids_are_new(
            chunk_ids(chunk_outcome(root, chunk_x, chunk_z, used, draws).tree),
            used_again,
        ),
    ensures
        ({
            let once = chunk_outcome(root, chunk_x, chunk_z, used, draws).tree;
            chunk_outcome(once, chunk_x, chunk_z, used_again, draws_again) == Repaired {
                tree: once,
                used: seen_with(used_again, chunk_ids(once)),
                tally: Tally::zero(),
            }
        }),
{
    let once = chunk_outcome(root, chunk_x, chunk_z, used, draws).tree;
    match root {
        Tree::Compound(entries) => {
            lemma_chunk_keys_differ();
            lemma_chunk_entries(entries, chunk_x, chunk_z, used, draws);
            let after = once->Compound_0;
            lemma_chunk_entries(after, chunk_x, chunk_z, used_again, draws_again);
            let twice = chunk_outcome(once, chunk_x, chunk_z, used_again, draws_again);
            let again = twice.tree->Compound_0;
            let upper = match value_at(entries, "Entities"@) {
                Some(value) => entity_list_outcome(value, chunk_x, chunk_z, used, draws),
                None => Repaired { tree: Tree::Byte(0), used, tally: Tally::zero() },
            };
            let later = draws.skip(upper.tally.uuids_regenerated as int);
            let ids_upper = field_ids(after, "Entities"@);
            let ids_lower = field_ids(after, "entities"@);
            assert(chunk_ids(once) == ids_upper + ids_lower);
            lemma_ids_split(ids_upper, ids_lower, used_again);
            lemma_well_keyed_value(entries, "Entities"@);
            lemma_well_keyed_value(entries, "entities"@);
            match value_at(entries, "Entities"@) {
                Some(value) => {
                    lemma_entity_list_again(
                        value,
                        chunk_x,
                        chunk_z,
                        used,
                        draws,
                        used_again,
                        draws_again,
                    );
                },
                None => {
                    assert(seen_with(used_again, Seq::<Seq<char>>::empty()) =~= used_again);
                },
            }
            assert(draws_again.skip(0) =~= draws_again);
            match value_at(entries, "entities"@) {
                Some(value) => {
                    lemma_entity_list_again(
                        value,
                        chunk_x,
                        chunk_z,
                        upper.used,
                        later,
                        seen_with(used_again, ids_upper),
                        draws_again,
                    );
                },
                None => {
                    assert(seen_with(
                        seen_with(used_again, ids_upper),
                        Seq::<Seq<char>>::empty(),
                    ) =~= seen_with(used_again, ids_upper));
                },
            }
            lemma_ids_joined(ids_upper, ids_lower, used_again);
            assert(again =~= after) by {
                assert forall|k: int| 0 <= k < after.len() implies #[trigger] again[k]
                    == after[k] by {
                    let key = after[k].0;
                    assert(entries[k].0 == key);
                    if key == "Entities"@ || key == "entities"@ {
                        lemma_key_index_bounds(after, key, 0);
                        lemma_key_index_bounds(again, key, 0);
                        lemma_same_keys(again, after, key, 0);
                        lemma_same_keys(after, entries, key, 0);
                        let at = key_index(after, key);
                        assert(keys_differ(entries));
                        if at >= after.len() {
                            lemma_no_key_means_none(after, key, 0);
                            assert(after[k].0 != key);
                        }
                        assert(entries[at].0 == key);
                        if at < k {
                            assert(entries[at].0 != entries[k].0);
                        }
                        if k < at {
                            assert(entries[k].0 != entries[at].0);
                        }
                        assert(at == k);
                        assert(value_at(again, key) == Some(again[k].1));
                        assert(value_at(after, key) == Some(after[k].1));
                    }
                }
            }
        },
        _ => {
            assert(seen_with(used_again, Seq::<Seq<char>>::empty()) =~= used_again);
        },
    }
}

} // verus!
