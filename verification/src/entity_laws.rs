//! What holds of the repair of entities: what it leaves under each key, that
//! it neither gives an entity custom data nor takes it away, and that the
//! identifiers that it leaves are all different.

use crate::enchant::{applied_at, item_outcome, items_outcome, value_at};
use crate::enchant_laws::{
    lemma_item_again, lemma_items_again, lemma_items_keep_custom_data, lemma_well_keyed_item,
    lemma_well_keyed_value,
};
use crate::entity::{
    carries_custom_data, entities_outcome, entity_outcome, list_at, list_has_custom_data,
    position_outcome, uuid_entry_outcome, uuid_outcome, uuid_text_of, Repaired, RepairedList,
};
use crate::nbt::{
    has_key, key_index, keys_differ, lemma_key_index_bounds, lemma_same_keys, well_keyed, Tree,
};
use crate::double::{double_ge, double_lt};
use crate::repair_laws::{
    lemma_applied_at, lemma_position_lies_in_chunk, lemma_position_repair_is_idempotent,
    lemma_with_value,
};
use crate::stats::Tally;
use crate::uuids::{hyphenated, lemma_lanes_round_trip};
use vstd::prelude::*;

verus! {

/// The seven keys by which the repair of an entity finds its entries are all different.
pub proof fn lemma_entity_keys_differ()
    ensures
        "equipment"@ != "ArmorItems"@,
        "equipment"@ != "HandItems"@,
        "equipment"@ != "Item"@,
        "equipment"@ != "UUID"@,
        "equipment"@ != "Pos"@,
        "equipment"@ != "Passengers"@,
        "ArmorItems"@ != "HandItems"@,
        "ArmorItems"@ != "Item"@,
        "ArmorItems"@ != "UUID"@,
        "ArmorItems"@ != "Pos"@,
        "ArmorItems"@ != "Passengers"@,
        "HandItems"@ != "Item"@,
        "HandItems"@ != "UUID"@,
        "HandItems"@ != "Pos"@,
        "HandItems"@ != "Passengers"@,
        "Item"@ != "UUID"@,
        "Item"@ != "Pos"@,
        "Item"@ != "Passengers"@,
        "UUID"@ != "Pos"@,
        "UUID"@ != "Passengers"@,
        "Pos"@ != "Passengers"@,
{
    reveal_strlit("equipment");
    reveal_strlit("ArmorItems");
    reveal_strlit("HandItems");
    reveal_strlit("Item");
    reveal_strlit("UUID");
    reveal_strlit("Pos");
    reveal_strlit("Passengers");
    assert("equipment"@.len() == 9 && "ArmorItems"@.len() == 10 && "HandItems"@.len() == 9);
    assert("Item"@.len() == 4 && "UUID"@.len() == 4 && "Pos"@.len() == 3);
    assert("Passengers"@.len() == 10);
    assert("equipment"@[0] == 'e' && "HandItems"@[0] == 'H');
    assert("ArmorItems"@[0] == 'A' && "Passengers"@[0] == 'P');
    assert("Item"@[0] == 'I' && "UUID"@[0] == 'U');
}

/// Whether `key` is one of the seven keys under which the repair of an entity works.
pub open spec fn is_repair_key(key: Seq<char>) -> bool {
    key == "equipment"@ || key == "ArmorItems"@ || key == "HandItems"@ || key == "Item"@ || key
        == "UUID"@ || key == "Pos"@ || key == "Passengers"@
}

/// The value under `key` after `repair` was applied to it, where there is one.
pub open spec fn repaired_at(
    entries: Seq<(Seq<char>, Tree)>,
    key: Seq<char>,
    repair: spec_fn(Tree) -> (Tree, nat),
) -> Option<Tree> {
    match value_at(entries, key) {
        Some(value) => Some(repair(value).0),
        None => None,
    }
}

/// What the repair of its identifier does for an entity with these entries: the
/// identifiers seen after it, and the number of fresh identifiers used.
pub open spec fn own_uuid_outcome(
    entries: Seq<(Seq<char>, Tree)>,
    used: Set<Seq<char>>,
    draws: Seq<u128>,
) -> (Set<Seq<char>>, nat) {
    match value_at(entries, "UUID"@) {
        Some(value) => (uuid_outcome(value, used, draws).1, uuid_outcome(value, used, draws).2),
        None => (used, 0),
    }
}

/// What the repair of the passengers of an entity gives, from the entries of the entity
/// as they were.
pub open spec fn riders_outcome(
    entries: Seq<(Seq<char>, Tree)>,
    chunk_x: int,
    chunk_z: int,
    used: Set<Seq<char>>,
    draws: Seq<u128>,
) -> RepairedList {
    let uuid = own_uuid_outcome(entries, used, draws);
    match list_at(entries, "Passengers"@) {
        Some(list) => entities_outcome(
            list,
            list.len() as int,
            chunk_x,
            chunk_z,
            uuid.0,
            draws.skip(uuid.1 as int),
        ),
        None => RepairedList { trees: Seq::empty(), used: uuid.0, tally: Tally::zero() },
    }
}

/// How many enchantments the repair of an entity with these entries raises in the items
/// that the entity wears, holds and is.
pub open spec fn own_enchantments(entries: Seq<(Seq<char>, Tree)>) -> nat {
    (match value_at(entries, "equipment"@) {
        Some(value) => items_outcome(value).1,
        None => 0,
    }) + (match value_at(entries, "ArmorItems"@) {
        Some(value) => items_outcome(value).1,
        None => 0,
    }) + (match value_at(entries, "HandItems"@) {
        Some(value) => items_outcome(value).1,
        None => 0,
    }) + (match value_at(entries, "Item"@) {
        Some(value) => item_outcome(value).1,
        None => 0,
    })
}

/// How many positions the repair of an entity with these entries repairs in the entity
/// itself: one or none.
pub open spec fn own_positions(entries: Seq<(Seq<char>, Tree)>, chunk_x: int, chunk_z: int) -> nat {
    match value_at(entries, "Pos"@) {
        Some(value) => position_outcome(value, chunk_x, chunk_z).1,
        None => 0,
    }
}

/// What the repair of an entity leaves under each of its keys: the repaired items under
/// `equipment`, `ArmorItems`, `HandItems` and `Item`, the repaired identifier under
/// `UUID`, the repaired position under `Pos`, the repaired passengers under
/// `Passengers`, and under any other key what stood there. The keys stay as they are.
pub proof fn lemma_entity_entries(
    entries: Seq<(Seq<char>, Tree)>,
    chunk_x: int,
    chunk_z: int,
    used: Set<Seq<char>>,
    draws: Seq<u128>,
)
    ensures
        ({
            let outcome = entity_outcome(Tree::Compound(entries), chunk_x, chunk_z, used, draws);
            let after = outcome.tree->Compound_0;
            let riders = riders_outcome(entries, chunk_x, chunk_z, used, draws);
            &&& outcome.tree is Compound
            &&& after.len() == entries.len()
            &&& forall|k: int| 0 <= k < entries.len() ==> (#[trigger] after[k]).0 == entries[k].0
            &&& forall|key: Seq<char>| #[trigger] has_key(after, key) == has_key(entries, key)
            &&& value_at(after, "equipment"@) == repaired_at(
                entries,
                "equipment"@,
                |v: Tree| items_outcome(v),
            )
            &&& value_at(after, "ArmorItems"@) == repaired_at(
                entries,
                "ArmorItems"@,
                |v: Tree| items_outcome(v),
            )
            &&& value_at(after, "HandItems"@) == repaired_at(
                entries,
                "HandItems"@,
                |v: Tree| items_outcome(v),
            )
            &&& value_at(after, "Item"@) == repaired_at(
                entries,
                "Item"@,
                |v: Tree| item_outcome(v),
            )
            &&& value_at(after, "UUID"@) == (match value_at(entries, "UUID"@) {
                Some(value) => Some(uuid_outcome(value, used, draws).0),
                None => None,
            })
            &&& value_at(after, "Pos"@) == repaired_at(
                entries,
                "Pos"@,
                |v: Tree| position_outcome(v, chunk_x, chunk_z),
            )
            &&& value_at(after, "Passengers"@) == (if list_at(entries, "Passengers"@).is_some() {
                Some(Tree::List(riders.trees))
            } else {
                value_at(entries, "Passengers"@)
            })
            &&& list_at(after, "Passengers"@) == (if list_at(entries, "Passengers"@).is_some() {
                Some(riders.trees)
            } else {
                None
            })
            &&& outcome.used == riders.used
            &&& forall|k: int|
                0 <= k < entries.len() && !is_repair_key(entries[k].0) ==> #[trigger] after[k]
                    == entries[k]
            &&& outcome.tally.uuids_regenerated == own_uuid_outcome(entries, used, draws).1
                + riders.tally.uuids_regenerated
            &&& outcome.tally.enchantments_fixed == own_enchantments(entries)
                + riders.tally.enchantments_fixed
            &&& outcome.tally.positions_fixed == own_positions(entries, chunk_x, chunk_z)
                + riders.tally.positions_fixed
            &&& outcome.tally.entities_fixed == riders.tally.entities_fixed + (if own_enchantments(
                entries,
            ) > 0 || own_uuid_outcome(entries, used, draws).1 > 0 || own_positions(
                entries,
                chunk_x,
                chunk_z,
            ) > 0 || riders.tally.any_repair() {
                1nat
            } else {
                0nat
            })
            &&& outcome.tally.files_processed == 0
            &&& outcome.tally.chunks_fixed == 0
        }),
{
    lemma_entity_keys_differ();
    let items = |v: Tree| items_outcome(v);
    let one = |v: Tree| item_outcome(v);
    let place = |v: Tree| position_outcome(v, chunk_x, chunk_z);
    let worn = applied_at(entries, "equipment"@, items).0;
    let armor = applied_at(worn, "ArmorItems"@, items).0;
    let held = applied_at(armor, "HandItems"@, items).0;
    let item = applied_at(held, "Item"@, one).0;
    let uuid = uuid_entry_outcome(item, used, draws);
    let placed = applied_at(uuid.0, "Pos"@, place).0;
    let riders = riders_outcome(entries, chunk_x, chunk_z, used, draws);
    let outcome = entity_outcome(Tree::Compound(entries), chunk_x, chunk_z, used, draws);
    let after = outcome.tree->Compound_0;
    assert forall|other: Seq<char>|
        #![trigger value_at(worn, other)]
        #![trigger key_index(worn, other)]
        key_index(worn, other) == key_index(entries, other) && value_at(worn, other) == (if other
            == "equipment"@ {
            repaired_at(entries, "equipment"@, items)
        } else {
            value_at(entries, other)
        }) by {
        lemma_applied_at(entries, "equipment"@, items, other);
    }
    assert forall|other: Seq<char>|
        #![trigger value_at(armor, other)]
        #![trigger key_index(armor, other)]
        key_index(armor, other) == key_index(worn, other) && value_at(armor, other) == (if other
            == "ArmorItems"@ {
            repaired_at(worn, "ArmorItems"@, items)
        } else {
            value_at(worn, other)
        }) by {
        lemma_applied_at(worn, "ArmorItems"@, items, other);
    }
    assert forall|other: Seq<char>|
        #![trigger value_at(held, other)]
        #![trigger key_index(held, other)]
        key_index(held, other) == key_index(armor, other) && value_at(held, other) == (if other
            == "HandItems"@ {
            repaired_at(armor, "HandItems"@, items)
        } else {
            value_at(armor, other)
        }) by {
        lemma_applied_at(armor, "HandItems"@, items, other);
    }
    assert forall|other: Seq<char>|
        #![trigger value_at(item, other)]
        #![trigger key_index(item, other)]
        key_index(item, other) == key_index(held, other) && value_at(item, other) == (if other
            == "Item"@ {
            repaired_at(held, "Item"@, one)
        } else {
            value_at(held, other)
        }) by {
        lemma_applied_at(held, "Item"@, one, other);
    }
    assert forall|other: Seq<char>|
        #![trigger value_at(uuid.0, other)]
        #![trigger key_index(uuid.0, other)]
        key_index(uuid.0, other) == key_index(item, other) && value_at(uuid.0, other) == (if other
            == "UUID"@ {
            match value_at(item, "UUID"@) {
                Some(value) => Some(uuid_outcome(value, used, draws).0),
                None => None,
            }
        } else {
            value_at(item, other)
        }) by {
        match value_at(item, "UUID"@) {
            Some(value) => {
                lemma_with_value(item, "UUID"@, uuid_outcome(value, used, draws).0, other);
            },
            None => {},
        }
    }
    assert forall|other: Seq<char>|
        #![trigger value_at(placed, other)]
        #![trigger key_index(placed, other)]
        key_index(placed, other) == key_index(uuid.0, other) && value_at(placed, other) == (if other
            == "Pos"@ {
            repaired_at(uuid.0, "Pos"@, place)
        } else {
            value_at(uuid.0, other)
        }) by {
        lemma_applied_at(uuid.0, "Pos"@, place, other);
    }
    assert forall|other: Seq<char>|
        #![trigger value_at(after, other)]
        #![trigger key_index(after, other)]
        key_index(after, other) == key_index(placed, other) && value_at(after, other) == (if other
            == "Passengers"@ && list_at(entries, "Passengers"@).is_some() {
            Some(Tree::List(riders.trees))
        } else {
            value_at(placed, other)
        }) by {
        if list_at(entries, "Passengers"@).is_some() {
            lemma_with_value(placed, "Passengers"@, Tree::List(riders.trees), other);
            lemma_key_index_bounds(entries, "Passengers"@, 0);
        }
    }
    lemma_applied_at(entries, "equipment"@, items, "equipment"@);
    lemma_applied_at(worn, "ArmorItems"@, items, "equipment"@);
    lemma_applied_at(armor, "HandItems"@, items, "equipment"@);
    lemma_applied_at(held, "Item"@, one, "equipment"@);
    lemma_applied_at(uuid.0, "Pos"@, place, "equipment"@);
    match value_at(item, "UUID"@) {
        Some(value) => {
            lemma_with_value(item, "UUID"@, uuid_outcome(value, used, draws).0, "equipment"@);
        },
        None => {},
    }
    if list_at(entries, "Passengers"@).is_some() {
        lemma_with_value(placed, "Passengers"@, Tree::List(riders.trees), "equipment"@);
    }
    assert forall|key: Seq<char>| #[trigger] has_key(after, key) == has_key(entries, key) by {
        assert(key_index(after, key) == key_index(entries, key));
    }
    lemma_key_index_bounds(entries, "Passengers"@, 0);
    lemma_key_index_bounds(after, "Passengers"@, 0);
    assert forall|k: int|
        0 <= k < entries.len() && !is_repair_key(entries[k].0) implies #[trigger] after[k]
        == entries[k] by {
        lemma_key_index_bounds(entries, "equipment"@, 0);
        lemma_key_index_bounds(worn, "ArmorItems"@, 0);
        lemma_key_index_bounds(armor, "HandItems"@, 0);
        lemma_key_index_bounds(held, "Item"@, 0);
        lemma_key_index_bounds(item, "UUID"@, 0);
        lemma_key_index_bounds(uuid.0, "Pos"@, 0);
        lemma_key_index_bounds(placed, "Passengers"@, 0);
        assert(worn[k] == entries[k]);
        assert(armor[k] == worn[k]);
        assert(held[k] == armor[k]);
        assert(item[k] == held[k]);
        assert(uuid.0[k] == item[k]);
        assert(placed[k] == uuid.0[k]);
    }
}

/// The repair of an entity neither gives it custom data nor takes it away: an entity
/// that was to be taken out of its chunk before the repair is so after it, and no other.
pub proof fn lemma_entity_keeps_custom_data(
    entity: Tree,
    chunk_x: int,
    chunk_z: int,
    used: Set<Seq<char>>,
    draws: Seq<u128>,
)
    ensures
        carries_custom_data(entity_outcome(entity, chunk_x, chunk_z, used, draws).tree)
            == carries_custom_data(entity),
{
    match entity {
        Tree::Compound(entries) => {
            lemma_entity_entries(entries, chunk_x, chunk_z, used, draws);
            let after = entity_outcome(entity, chunk_x, chunk_z, used, draws).tree->Compound_0;
            match value_at(entries, "equipment"@) {
                Some(value) => {
                    lemma_items_keep_custom_data(value);
                },
                None => {},
            }
            match value_at(entries, "ArmorItems"@) {
                Some(value) => {
                    lemma_items_keep_custom_data(value);
                },
                None => {},
            }
            match value_at(entries, "HandItems"@) {
                Some(value) => {
                    lemma_items_keep_custom_data(value);
                },
                None => {},
            }
            assert(list_has_custom_data(after, "ArmorItems"@) == list_has_custom_data(
                entries,
                "ArmorItems"@,
            ));
            assert(list_has_custom_data(after, "HandItems"@) == list_has_custom_data(
                entries,
                "HandItems"@,
            ));
        },
        _ => {},
    }
}

/// The repair of a list of entities gives as many entities as it was given, and neither
/// gives any of them custom data nor takes it away.
pub proof fn lemma_entities_keep_custom_data(
    list: Seq<Tree>,
    n: int,
    chunk_x: int,
    chunk_z: int,
    used: Set<Seq<char>>,
    draws: Seq<u128>,
    i: int,
)
    requires
        0 <= i < n <= list.len(),
    ensures
        entities_outcome(list, n, chunk_x, chunk_z, used, draws).trees.len() == n,
        carries_custom_data(entities_outcome(list, n, chunk_x, chunk_z, used, draws).trees[i])
            == carries_custom_data(list[i]),
    decreases n,
{
    lemma_entities_len(list, n, chunk_x, chunk_z, used, draws);
    lemma_entities_len(list, n - 1, chunk_x, chunk_z, used, draws);
    let before = entities_outcome(list, n - 1, chunk_x, chunk_z, used, draws);
    if i < n - 1 {
        lemma_entities_keep_custom_data(list, n - 1, chunk_x, chunk_z, used, draws, i);
    } else {
        lemma_entity_keeps_custom_data(
            list[n - 1],
            chunk_x,
            chunk_z,
            before.used,
            draws.skip(before.tally.uuids_regenerated as int),
        );
    }
}

/// The repair of the first `n` entities of a list gives `n` entities.
pub proof fn lemma_entities_len(
    list: Seq<Tree>,
    n: int,
    chunk_x: int,
    chunk_z: int,
    used: Set<Seq<char>>,
    draws: Seq<u128>,
)
    requires
        0 <= n <= list.len(),
    ensures
        entities_outcome(list, n, chunk_x, chunk_z, used, draws).trees.len() == n,
    decreases n,
{
    if n > 0 {
        lemma_entities_len(list, n - 1, chunk_x, chunk_z, used, draws);
    }
}

/// The identifier of an entity with these entries, in a sequence of its own: none where
/// the entity has no identifier.
pub open spec fn own_id(entries: Seq<(Seq<char>, Tree)>) -> Seq<Seq<char>> {
    match value_at(entries, "UUID"@) {
        Some(value) => match uuid_text_of(value) {
            Some(text) => seq![text],
            None => Seq::empty(),
        },
        None => Seq::empty(),
    }
}

/// The identifiers of an entity and of its passengers, in the order in which the repair
/// comes to them.
pub open spec fn entity_ids(entity: Tree) -> Seq<Seq<char>>
    decreases entity, 0int,
{
    match entity {
        Tree::Compound(entries) => own_id(entries) + match list_at(entries, "Passengers"@) {
            Some(list) => list_ids(list, list.len() as int),
            None => Seq::empty(),
        },
        _ => Seq::empty(),
    }
}

/// The identifiers of the first `n` entities of a list and of their passengers.
pub open spec fn list_ids(list: Seq<Tree>, n: int) -> Seq<Seq<char>>
    decreases list, n,
{
    if n <= 0 || n > list.len() {
        Seq::empty()
    } else {
        list_ids(list, n - 1) + entity_ids(list[n - 1])
    }
}

/// Whether the identifiers are all different and none of them was seen before.
pub open spec fn ids_are_new(ids: Seq<Seq<char>>, used: Set<Seq<char>>) -> bool {
    &&& forall|i: int| 0 <= i < ids.len() ==> !used.contains(#[trigger] ids[i])
    &&& forall|i: int, j: int| 0 <= i < j < ids.len() ==> #[trigger] ids[i] != #[trigger] ids[j]
}

/// The identifiers seen before, and those of `ids`.
pub open spec fn seen_with(used: Set<Seq<char>>, ids: Seq<Seq<char>>) -> Set<Seq<char>> {
    Set::new(|text: Seq<char>| used.contains(text) || ids.contains(text))
}

/// Whether the fresh identifiers are all different, none of them was seen before, and
/// none of them is among `ids`. Random identifiers of 122 bits are so but for a chance
/// that is negligible.
pub open spec fn draws_are_fresh(
    draws: Seq<u128>,
    used: Set<Seq<char>>,
    ids: Seq<Seq<char>>,
) -> bool {
    &&& forall|i: int, j: int|
        0 <= i < j < draws.len() ==> hyphenated(#[trigger] draws[i]) != hyphenated(
            #[trigger] draws[j],
        )
    &&& forall|i: int| 0 <= i < draws.len() ==> !used.contains(hyphenated(#[trigger] draws[i]))
    &&& forall|i: int, k: int|
        0 <= i < draws.len() && 0 <= k < ids.len() ==> hyphenated(#[trigger] draws[i])
            != #[trigger] ids[k]
}

/// Whether every identifier of `ids` is one of `before` or one of the first `consumed`
/// fresh ones.
pub open spec fn ids_come_from(
    ids: Seq<Seq<char>>,
    before: Seq<Seq<char>>,
    draws: Seq<u128>,
    consumed: int,
) -> bool {
    forall|k: int|
        0 <= k < ids.len() ==> before.contains(#[trigger] ids[k]) || exists|i: int|
            0 <= i < consumed && i < draws.len() && ids[k] == hyphenated(#[trigger] draws[i])
}

/// New identifiers followed by identifiers that are new also after them are new.
pub proof fn lemma_ids_joined(a: Seq<Seq<char>>, b: Seq<Seq<char>>, used: Set<Seq<char>>)
    requires
        ids_are_new(a, used),
        ids_are_new(b, seen_with(used, a)),
    ensures
        ids_are_new(a + b, used),
        seen_with(seen_with(used, a), b) == seen_with(used, a + b),
{
    let all = a + b;
    assert forall|i: int| 0 <= i < all.len() implies !used.contains(#[trigger] all[i]) by {
        if i >= a.len() {
            assert(all[i] == b[i - a.len()]);
            assert(!seen_with(used, a).contains(b[i - a.len()]));
        }
    }
    assert forall|i: int, j: int| 0 <= i < j < all.len() implies #[trigger] all[i]
        != #[trigger] all[j] by {
        if j >= a.len() {
            assert(all[j] == b[j - a.len()]);
            assert(!seen_with(used, a).contains(b[j - a.len()]));
            if i < a.len() {
                assert(all[i] == a[i]);
                assert(a.contains(a[i]));
            } else {
                assert(all[i] == b[i - a.len()]);
            }
        }
    }
    assert forall|text: Seq<char>|
        seen_with(seen_with(used, a), b).contains(text) == seen_with(used, all).contains(
            text,
        ) by {
        if a.contains(text) {
            let i = choose|i: int| 0 <= i < a.len() && a[i] == text;
            assert(all[i] == text);
        }
        if b.contains(text) {
            let i = choose|i: int| 0 <= i < b.len() && b[i] == text;
            assert(all[a.len() + i] == text);
        }
        if all.contains(text) {
            let i = choose|i: int| 0 <= i < all.len() && all[i] == text;
            if i < a.len() {
                assert(a[i] == text);
            } else {
                assert(b[i - a.len()] == text);
            }
        }
    }
    assert(seen_with(seen_with(used, a), b) =~= seen_with(used, all));
}

/// The identifiers of the first `n` entities depend on those entities only.
proof fn lemma_list_ids_of_prefix(a: Seq<Tree>, b: Seq<Tree>, n: int)
    requires
        0 <= n <= a.len(),
        n <= b.len(),
        forall|i: int| 0 <= i < n ==> a[i] == b[i],
    ensures
        list_ids(a, n) == list_ids(b, n),
    decreases n,
{
    if n > 0 {
        lemma_list_ids_of_prefix(a, b, n - 1);
    }
}

/// The identifiers of more entities start with the identifiers of fewer.
proof fn lemma_list_ids_grow(list: Seq<Tree>, n: int, m: int, k: int)
    requires
        0 <= n <= m <= list.len(),
        0 <= k < list_ids(list, n).len(),
    ensures
        k < list_ids(list, m).len(),
        list_ids(list, m)[k] == list_ids(list, n)[k],
    decreases m - n,
{
    if n < m {
        lemma_list_ids_grow(list, n, m - 1, k);
    }
}

/// What the repair of an identifier leaves: the identifier as it was where it was not
/// seen before, and the first fresh one where it was.
proof fn lemma_uuid_after(value: Tree, used: Set<Seq<char>>, draws: Seq<u128>)
    ensures
        uuid_text_of(uuid_outcome(value, used, draws).0) == match uuid_text_of(value) {
            None => None,
            Some(text) => if used.contains(text) {
                Some(hyphenated(draws[0]))
            } else {
                Some(text)
            },
        },
        uuid_outcome(value, used, draws).1 == match uuid_text_of(
            uuid_outcome(value, used, draws).0,
        ) {
            None => used,
            Some(text) => used.insert(text),
        },
        uuid_outcome(value, used, draws).2 <= 1,
{
    match uuid_text_of(value) {
        Some(text) => {
            if used.contains(text) {
                lemma_lanes_round_trip(draws[0]);
            }
        },
        None => {},
    }
}

/// After the repair of an entity, its identifier and those of its passengers are all
/// different and none of them was seen before; they are what the repair adds to the
/// identifiers seen; and each of them is an identifier that the entity or a passenger had
/// before, or one of the fresh ones that the repair used. The fresh identifiers must be
/// fresh: all different, not seen before, and none that the entity or a passenger has.
pub proof fn lemma_entity_ids_are_new(
    entity: Tree,
    chunk_x: int,
    chunk_z: int,
    used: Set<Seq<char>>,
    draws: Seq<u128>,
)
    requires
        draws_are_fresh(draws, used, entity_ids(entity)),
        entity_outcome(entity, chunk_x, chunk_z, used, draws).tally.uuids_regenerated
            <= draws.len(),
    ensures
        ({
            let outcome = entity_outcome(entity, chunk_x, chunk_z, used, draws);
            let ids = entity_ids(outcome.tree);
            &&& ids_are_new(ids, used)
            &&& outcome.used == seen_with(used, ids)
            &&& ids_come_from(
                ids,
                entity_ids(entity),
                draws,
                outcome.tally.uuids_regenerated as int,
            )
        }),
    decreases entity, 0int,
{
    let outcome = entity_outcome(entity, chunk_x, chunk_z, used, draws);
    match entity {
        Tree::Compound(entries) => {
            lemma_entity_entries(entries, chunk_x, chunk_z, used, draws);
            let after = outcome.tree->Compound_0;
            let uuid = own_uuid_outcome(entries, used, draws);
            let riders = riders_outcome(entries, chunk_x, chunk_z, used, draws);
            let own_before = own_id(entries);
            let own = own_id(after);
            let before = entity_ids(entity);
            match value_at(entries, "UUID"@) {
                Some(value) => {
                    lemma_uuid_after(value, used, draws);
                },
                None => {},
            }
            if own_before.len() > 0 {
                assert(before[0] == own_before[0]);
            }
            assert(ids_are_new(own, used));
            assert(uuid.0 =~= seen_with(used, own)) by {
                if own.len() > 0 {
                    assert(own[0] == own[0]);
                    assert forall|text: Seq<char>|
                        seen_with(used, own).contains(text) == used.insert(own[0]).contains(
                            text,
                        ) by {
                        if own.contains(text) {
                            let i = choose|i: int| 0 <= i < own.len() && own[i] == text;
                        }
                        if text == own[0] {
                            assert(own.contains(text));
                        }
                    }
                } else {
                    assert forall|text: Seq<char>|
                        seen_with(used, own).contains(text) == used.contains(text) by {
                        if own.contains(text) {
                            let i = choose|i: int| 0 <= i < own.len() && own[i] == text;
                        }
                    }
                }
            }
            let rider_ids = match list_at(after, "Passengers"@) {
                Some(list) => list_ids(list, list.len() as int),
                None => Seq::empty(),
            };
            match list_at(entries, "Passengers"@) {
                Some(list) => {
                    let later = draws.skip(uuid.1 as int);
                    let rider_before = list_ids(list, list.len() as int);
                    assert forall|k: int| 0 <= k < rider_before.len() implies #[trigger] before[
                    own_before.len() + k] == rider_before[k] by {}
                    assert(draws_are_fresh(later, uuid.0, rider_before)) by {
                        assert forall|i: int| 0 <= i < later.len() implies !uuid.0.contains(
                            hyphenated(#[trigger] later[i]),
                        ) by {
                            assert(later[i] == draws[i + uuid.1]);
                            if own.len() > 0 && own[0] == hyphenated(later[i]) {
                                if own_before.len() > 0 && own[0] == own_before[0] {
                                    assert(before[0] == own[0]);
                                }
                            }
                        }
                        assert forall|i: int, k: int|
                            0 <= i < later.len() && 0 <= k < rider_before.len() implies hyphenated(
                            #[trigger] later[i],
                        ) != #[trigger] rider_before[k] by {
                            assert(later[i] == draws[i + uuid.1]);
                            assert(before[own_before.len() + k] == rider_before[k]);
                        }
                        assert forall|i: int, j: int| 0 <= i < j < later.len() implies hyphenated(
                            #[trigger] later[i],
                        ) != hyphenated(#[trigger] later[j]) by {
                            assert(later[i] == draws[i + uuid.1]);
                            assert(later[j] == draws[j + uuid.1]);
                        }
                    }
                    lemma_list_ids_are_new(
                        list,
                        list.len() as int,
                        chunk_x,
                        chunk_z,
                        uuid.0,
                        later,
                    );
                    lemma_entities_len(
                        list,
                        list.len() as int,
                        chunk_x,
                        chunk_z,
                        uuid.0,
                        later,
                    );
                    assert(rider_ids == list_ids(riders.trees, list.len() as int));
                    lemma_ids_joined(own, rider_ids, used);
                    let ids = own + rider_ids;
                    assert(entity_ids(outcome.tree) == ids);
                    assert forall|k: int| 0 <= k < ids.len() implies before.contains(
                        #[trigger] ids[k],
                    ) || exists|i: int|
                        0 <= i < outcome.tally.uuids_regenerated && i < draws.len() && ids[k]
                            == hyphenated(#[trigger] draws[i]) by {
                        if k < own.len() {
                            if own_before.len() > 0 && own[0] == own_before[0] {
                                assert(before[0] == ids[k]);
                            } else {
                                assert(ids[k] == hyphenated(draws[0]));
                            }
                        } else {
                            let r = k - own.len();
                            assert(ids[k] == rider_ids[r]);
                            if rider_before.contains(rider_ids[r]) {
                                let m = choose|m: int|
                                    0 <= m < rider_before.len() && rider_before[m] == rider_ids[r];
                                assert(before[own_before.len() + m] == ids[k]);
                            } else {
                                let i = choose|i: int|
                                    0 <= i < riders.tally.uuids_regenerated && i < later.len()
                                        && rider_ids[r] == hyphenated(#[trigger] later[i]);
                                assert(later[i] == draws[i + uuid.1]);
                            }
                        }
                    }
                },
                None => {
                    assert(own + rider_ids =~= own);
                    assert(before =~= own_before);
                    let ids = own;
                    assert forall|k: int| 0 <= k < ids.len() implies before.contains(
                        #[trigger] ids[k],
                    ) || exists|i: int|
                        0 <= i < outcome.tally.uuids_regenerated && i < draws.len() && ids[k]
                            == hyphenated(#[trigger] draws[i]) by {
                        if own_before.len() > 0 && own[0] == own_before[0] {
                            assert(before[0] == ids[k]);
                        } else {
                            assert(ids[k] == hyphenated(draws[0]));
                        }
                    }
                },
            }
        },
        _ => {
            assert(seen_with(used, Seq::<Seq<char>>::empty()) =~= used);
        },
    }
}

/// After the repair of a list of entities, their identifiers and those of their
/// passengers are all different and none of them was seen before.
pub proof fn lemma_list_ids_are_new(
    list: Seq<Tree>,
    n: int,
    chunk_x: int,
    chunk_z: int,
    used: Set<Seq<char>>,
    draws: Seq<u128>,
)
    requires
        0 <= n <= list.len(),
        draws_are_fresh(draws, used, list_ids(list, n)),
        entities_outcome(list, n, chunk_x, chunk_z, used, draws).tally.uuids_regenerated
            <= draws.len(),
    ensures
        ({
            let outcome = entities_outcome(list, n, chunk_x, chunk_z, used, draws);
            let ids = list_ids(outcome.trees, n);
            &&& outcome.trees.len() == n
            &&& ids_are_new(ids, used)
            &&& outcome.used == seen_with(used, ids)
            &&& ids_come_from(ids, list_ids(list, n), draws, outcome.tally.uuids_regenerated as int)
        }),
    decreases list, n,
{
    let outcome = entities_outcome(list, n, chunk_x, chunk_z, used, draws);
    lemma_entities_len(list, n, chunk_x, chunk_z, used, draws);
    if n == 0 {
        assert(seen_with(used, Seq::<Seq<char>>::empty()) =~= used);
    } else {
        let before = entities_outcome(list, n - 1, chunk_x, chunk_z, used, draws);
        let ids_listed = list_ids(list, n);
        let ids_listed_before = list_ids(list, n - 1);
        let ids_this_before = entity_ids(list[n - 1]);
        assert(ids_listed == ids_listed_before + ids_this_before);
        assert(draws_are_fresh(draws, used, ids_listed_before)) by {
            assert forall|i: int, k: int|
                0 <= i < draws.len() && 0 <= k < ids_listed_before.len() implies hyphenated(
                #[trigger] draws[i],
            ) != #[trigger] ids_listed_before[k] by {
                assert(ids_listed[k] == ids_listed_before[k]);
            }
        }
        lemma_list_ids_are_new(list, n - 1, chunk_x, chunk_z, used, draws);
        lemma_entities_len(list, n - 1, chunk_x, chunk_z, used, draws);
        let c = before.tally.uuids_regenerated as int;
        let later = draws.skip(c);
        let ids_before = list_ids(before.trees, n - 1);
        assert(draws_are_fresh(later, before.used, ids_this_before)) by {
            assert forall|i: int| 0 <= i < later.len() implies !before.used.contains(
                hyphenated(#[trigger] later[i]),
            ) by {
                assert(later[i] == draws[i + c]);
                let text = hyphenated(later[i]);
                if ids_before.contains(text) {
                    let k = choose|k: int| 0 <= k < ids_before.len() && ids_before[k] == text;
                    if ids_listed_before.contains(ids_before[k]) {
                        let m = choose|m: int|
                            0 <= m < ids_listed_before.len() && ids_listed_before[m]
                                == ids_before[k];
                        assert(ids_listed[m] == ids_listed_before[m]);
                    } else {
                        let j = choose|j: int|
                            0 <= j < c && j < draws.len() && ids_before[k] == hyphenated(
                                #[trigger] draws[j],
                            );
                    }
                }
            }
            assert forall|i: int, k: int|
                0 <= i < later.len() && 0 <= k < ids_this_before.len() implies hyphenated(
                #[trigger] later[i],
            ) != #[trigger] ids_this_before[k] by {
                assert(later[i] == draws[i + c]);
                assert(ids_listed[ids_listed_before.len() + k] == ids_this_before[k]);
            }
            assert forall|i: int, j: int| 0 <= i < j < later.len() implies hyphenated(
                #[trigger] later[i],
            ) != hyphenated(#[trigger] later[j]) by {
                assert(later[i] == draws[i + c]);
                assert(later[j] == draws[j + c]);
            }
        }
        lemma_entity_ids_are_new(list[n - 1], chunk_x, chunk_z, before.used, later);
        let this = entity_outcome(list[n - 1], chunk_x, chunk_z, before.used, later);
        let ids_this = entity_ids(this.tree);
        lemma_list_ids_of_prefix(outcome.trees, before.trees, n - 1);
        let ids = list_ids(outcome.trees, n);
        assert(ids == ids_before + ids_this);
        lemma_ids_joined(ids_before, ids_this, used);
        assert forall|k: int| 0 <= k < ids.len() implies ids_listed.contains(#[trigger] ids[k])
            || exists|i: int|
            0 <= i < outcome.tally.uuids_regenerated && i < draws.len() && ids[k] == hyphenated(
                #[trigger] draws[i],
            ) by {
            if k < ids_before.len() {
                assert(ids[k] == ids_before[k]);
                if ids_listed_before.contains(ids_before[k]) {
                    let m = choose|m: int|
                        0 <= m < ids_listed_before.len() && ids_listed_before[m] == ids_before[k];
                    assert(ids_listed[m] == ids[k]);
                } else {
                    let j = choose|j: int|
                        0 <= j < c && j < draws.len() && ids_before[k] == hyphenated(
                            #[trigger] draws[j],
                        );
                }
            } else {
                let r = k - ids_before.len();
                assert(ids[k] == ids_this[r]);
                if ids_this_before.contains(ids_this[r]) {
                    let m = choose|m: int|
                        0 <= m < ids_this_before.len() && ids_this_before[m] == ids_this[r];
                    assert(ids_listed[ids_listed_before.len() + m] == ids[k]);
                } else {
                    let i = choose|i: int|
                        0 <= i < this.tally.uuids_regenerated && i < later.len() && ids_this[r]
                            == hyphenated(#[trigger] later[i]);
                    assert(later[i] == draws[i + c]);
                }
            }
        }
    }
}

/// Identifiers that are new together are new one part after the other.
pub proof fn lemma_ids_split(a: Seq<Seq<char>>, b: Seq<Seq<char>>, used: Set<Seq<char>>)
    requires
        ids_are_new(a + b, used),
    ensures
        ids_are_new(a, used),
        ids_are_new(b, seen_with(used, a)),
{
    let all = a + b;
    assert forall|i: int| 0 <= i < a.len() implies !used.contains(#[trigger] a[i]) by {
        assert(all[i] == a[i]);
    }
    assert forall|i: int, j: int| 0 <= i < j < a.len() implies #[trigger] a[i]
        != #[trigger] a[j] by {
        assert(all[i] == a[i] && all[j] == a[j]);
    }
    assert forall|i: int| 0 <= i < b.len() implies !seen_with(used, a).contains(
        #[trigger] b[i],
    ) by {
        assert(all[a.len() + i] == b[i]);
        if a.contains(b[i]) {
            let k = choose|k: int| 0 <= k < a.len() && a[k] == b[i];
            assert(all[k] == a[k]);
        }
    }
    assert forall|i: int, j: int| 0 <= i < j < b.len() implies #[trigger] b[i]
        != #[trigger] b[j] by {
        assert(all[a.len() + i] == b[i] && all[a.len() + j] == b[j]);
    }
}

/// The repair of the first `n` entities depends on those entities only.
proof fn lemma_entities_of_prefix(
    a: Seq<Tree>,
    b: Seq<Tree>,
    n: int,
    chunk_x: int,
    chunk_z: int,
    used: Set<Seq<char>>,
    draws: Seq<u128>,
)
    requires
        0 <= n <= a.len(),
        n <= b.len(),
        forall|i: int| 0 <= i < n ==> a[i] == b[i],
    ensures
        entities_outcome(a, n, chunk_x, chunk_z, used, draws) == entities_outcome(
            b,
            n,
            chunk_x,
            chunk_z,
            used,
            draws,
        ),
    decreases n,
{
    if n > 0 {
        lemma_entities_of_prefix(a, b, n - 1, chunk_x, chunk_z, used, draws);
    }
}

/// An entity that was repaired is not repaired again: a second repair leaves the tree as
/// it is and counts nothing, and sees the identifiers of the entity and its passengers.
/// It is assumed that no compound of the entity has a key twice, and that the
/// identifiers that the first repair left are new to the second.
pub proof fn lemma_entity_again(
    entity: Tree,
    chunk_x: int,
    chunk_z: int,
    used: Set<Seq<char>>,
    draws: Seq<u128>,
    used_again: Set<Seq<char>>,
    draws_again: Seq<u128>,
)
    requires
        well_keyed(entity),
        -0x8000_0000 <= chunk_x < 0x8000_0000,
        -0x8000_0000 <= chunk_z < 0x8000_0000,
        ids_are_new(
            entity_ids(entity_outcome(entity, chunk_x, chunk_z, used, draws).tree),
            used_again,
        ),
    ensures
        ({
            let once = entity_outcome(entity, chunk_x, chunk_z, used, draws).tree;
            entity_outcome(once, chunk_x, chunk_z, used_again, draws_again) == Repaired {
                tree: once,
                used: seen_with(used_again, entity_ids(once)),
                tally: Tally::zero(),
            }
        }),
    decreases entity, 0int,
{
    let once = entity_outcome(entity, chunk_x, chunk_z, used, draws).tree;
    match entity {
        Tree::Compound(entries) => {
            lemma_entity_keys_differ();
            lemma_entity_entries(entries, chunk_x, chunk_z, used, draws);
            let after = once->Compound_0;
            lemma_entity_entries(after, chunk_x, chunk_z, used_again, draws_again);
            let twice = entity_outcome(once, chunk_x, chunk_z, used_again, draws_again);
            let again = twice.tree->Compound_0;
            lemma_well_keyed_value(entries, "equipment"@);
            lemma_well_keyed_value(entries, "ArmorItems"@);
            lemma_well_keyed_value(entries, "HandItems"@);
            lemma_well_keyed_value(entries, "Item"@);
            match value_at(entries, "equipment"@) {
                Some(value) => {
                    lemma_items_again(value);
                },
                None => {},
            }
            match value_at(entries, "ArmorItems"@) {
                Some(value) => {
                    lemma_items_again(value);
                },
                None => {},
            }
            match value_at(entries, "HandItems"@) {
                Some(value) => {
                    lemma_items_again(value);
                },
                None => {},
            }
            match value_at(entries, "Item"@) {
                Some(value) => {
                    lemma_item_again(value);
                },
                None => {},
            }
            match value_at(entries, "Pos"@) {
                Some(value) => {
                    lemma_position_repair_is_idempotent(value, chunk_x, chunk_z);
                },
                None => {},
            }
            let own = own_id(after);
            let rider_ids = match list_at(after, "Passengers"@) {
                Some(list) => list_ids(list, list.len() as int),
                None => Seq::empty(),
            };
            assert(entity_ids(once) == own + rider_ids);
            lemma_ids_split(own, rider_ids, used_again);
            let own_again = own_uuid_outcome(after, used_again, draws_again);
            match value_at(after, "UUID"@) {
                Some(value) => {
                    lemma_uuid_after(value, used_again, draws_again);
                    if own.len() > 0 {
                        assert(!used_again.contains(own[0]));
                    }
                },
                None => {},
            }
            assert(own_again.1 == 0);
            assert(own_again.0 =~= seen_with(used_again, own)) by {
                assert forall|text: Seq<char>|
                    seen_with(used_again, own).contains(text) == own_again.0.contains(text) by {
                    if own.contains(text) {
                        let i = choose|i: int| 0 <= i < own.len() && own[i] == text;
                    }
                    if own.len() > 0 && text == own[0] {
                        assert(own.contains(text));
                    }
                }
            }
            assert(draws_again.skip(0) =~= draws_again);
            match list_at(entries, "Passengers"@) {
                Some(list) => {
                    let first = own_uuid_outcome(entries, used, draws);
                    lemma_key_index_bounds(entries, "Passengers"@, 0);
                    assert(well_keyed(Tree::List(list))) by {
                        lemma_well_keyed_value(entries, "Passengers"@);
                    }
                    lemma_entities_len(
                        list,
                        list.len() as int,
                        chunk_x,
                        chunk_z,
                        first.0,
                        draws.skip(first.1 as int),
                    );
                    lemma_entities_again(
                        list,
                        list.len() as int,
                        chunk_x,
                        chunk_z,
                        first.0,
                        draws.skip(first.1 as int),
                        own_again.0,
                        draws_again,
                    );
                },
                None => {
                    assert(seen_with(own_again.0, Seq::<Seq<char>>::empty()) =~= own_again.0);
                },
            }
            lemma_ids_joined(own, rider_ids, used_again);
            assert(again =~= after) by {
                assert forall|k: int| 0 <= k < after.len() implies #[trigger] again[k]
                    == after[k] by {
                    let key = after[k].0;
                    assert(entries[k].0 == key);
                    if is_repair_key(key) {
                        lemma_key_index_bounds(after, key, 0);
                        lemma_key_index_bounds(again, key, 0);
                        lemma_same_keys(again, after, key, 0);
                        lemma_same_keys(after, entries, key, 0);
                        let at = key_index(after, key);
                        assert(keys_differ(entries));
                        if at >= after.len() {
                            crate::enchant_laws::lemma_no_key_means_none(after, key, 0);
                            assert(after[k].0 != key);
                        }
                        assert(entries[at].0 == key);
                        if at < k {
                            assert(entries[at].0 != entries[k].0);
                        }
                        if k < at {
                            assert(entries[k].0 != entries[at].0);
                        }
                        assert(at == k);
                        assert(value_at(again, key) == Some(again[k].1));
                        assert(value_at(after, key) == Some(after[k].1));
                    }
                }
            }
        },
        _ => {
            assert(seen_with(used_again, Seq::<Seq<char>>::empty()) =~= used_again);
        },
    }
}

/// Entities that were repaired are not repaired again.
pub proof fn lemma_entities_again(
    list: Seq<Tree>,
    n: int,
    chunk_x: int,
    chunk_z: int,
    used: Set<Seq<char>>,
    draws: Seq<u128>,
    used_again: Set<Seq<char>>,
    draws_again: Seq<u128>,
)
    requires
        0 <= n <= list.len(),
        well_keyed(Tree::List(list)),
        -0x8000_0000 <= chunk_x < 0x8000_0000,
        -0x8000_0000 <= chunk_z < 0x8000_0000,
        ids_are_new(
            list_ids(entities_outcome(list, n, chunk_x, chunk_z, used, draws).trees, n),
            used_again,
        ),
    ensures
        ({
            let once = entities_outcome(list, n, chunk_x, chunk_z, used, draws).trees;
            entities_outcome(once, n, chunk_x, chunk_z, used_again, draws_again) == RepairedList {
                trees: once,
                used: seen_with(used_again, list_ids(once, n)),
                tally: Tally::zero(),
            }
        }),
    decreases list, n,
{
    let once = entities_outcome(list, n, chunk_x, chunk_z, used, draws).trees;
    lemma_entities_len(list, n, chunk_x, chunk_z, used, draws);
    if n == 0 {
        assert(seen_with(used_again, Seq::<Seq<char>>::empty()) =~= used_again);
        assert(once =~= Seq::<Tree>::empty());
    } else {
        let before = entities_outcome(list, n - 1, chunk_x, chunk_z, used, draws);
        lemma_entities_len(list, n - 1, chunk_x, chunk_z, used, draws);
        let later = draws.skip(before.tally.uuids_regenerated as int);
        let this = entity_outcome(list[n - 1], chunk_x, chunk_z, before.used, later);
        assert(once == before.trees.push(this.tree));
        let ids_before = list_ids(before.trees, n - 1);
        let ids_this = entity_ids(this.tree);
        lemma_list_ids_of_prefix(once, before.trees, n - 1);
        assert(list_ids(once, n) == ids_before + ids_this);
        lemma_ids_split(ids_before, ids_this, used_again);
        lemma_entities_again(list, n - 1, chunk_x, chunk_z, used, draws, used_again, draws_again);
        lemma_entities_of_prefix(
            once,
            before.trees,
            n - 1,
            chunk_x,
            chunk_z,
            used_again,
            draws_again,
        );
        lemma_well_keyed_item(list, n - 1);
        assert(draws_again.skip(0) =~= draws_again);
        lemma_entity_again(
            list[n - 1],
            chunk_x,
            chunk_z,
            before.used,
            later,
            seen_with(used_again, ids_before),
            draws_again,
        );
        lemma_ids_joined(ids_before, ids_this, used_again);
        let twice = entities_outcome(once, n, chunk_x, chunk_z, used_again, draws_again);
        assert(twice.trees =~= once);
    }
}

/// Every entity that the repair of a list gives is the repair of the entity that stood in
/// its place, with the identifiers that the entities before it left.
pub proof fn lemma_entity_in_turn(
    list: Seq<Tree>,
    n: int,
    chunk_x: int,
    chunk_z: int,
    used: Set<Seq<char>>,
    draws: Seq<u128>,
    i: int,
)
    requires
        0 <= i < n <= list.len(),
    ensures
        entities_outcome(list, n, chunk_x, chunk_z, used, draws).trees.len() == n,
        entities_outcome(list, n, chunk_x, chunk_z, used, draws).trees[i] == entity_outcome(
            list[i],
            chunk_x,
            chunk_z,
            entities_outcome(list, i, chunk_x, chunk_z, used, draws).used,
            draws.skip(
                entities_outcome(list, i, chunk_x, chunk_z, used, draws).tally.uuids_regenerated as int,
            ),
        ).tree,
    decreases n,
{
    lemma_entities_len(list, n, chunk_x, chunk_z, used, draws);
    lemma_entities_len(list, n - 1, chunk_x, chunk_z, used, draws);
    if i < n - 1 {
        lemma_entity_in_turn(list, n - 1, chunk_x, chunk_z, used, draws, i);
    }
}

/// After the repair of an entity with a position of three coordinates or more, the first
/// and the third coordinate lie in the chunk where they are doubles, and the second is as
/// it was.
pub proof fn lemma_entity_lies_in_chunk(
    entries: Seq<(Seq<char>, Tree)>,
    chunk_x: int,
    chunk_z: int,
    used: Set<Seq<char>>,
    draws: Seq<u128>,
)
    requires
        -0x8000_0000 <= chunk_x < 0x8000_0000,
        -0x8000_0000 <= chunk_z < 0x8000_0000,
        value_at(entries, "Pos"@) matches Some(Tree::List(coords)) && coords.len() >= 3,
    ensures
        ({
            let after = entity_outcome(
                Tree::Compound(entries),
                chunk_x,
                chunk_z,
                used,
                draws,
            ).tree->Compound_0;
            let before = value_at(entries, "Pos"@)->Some_0->List_0;
            &&& value_at(after, "Pos"@) matches Some(Tree::List(coords)) && {
                &&& coords.len() == before.len()
                &&& coords[1] == before[1]
                &&& coords[0] matches Tree::Double(x) ==> double_ge(x, chunk_x * 16) && double_lt(
                    x,
                    (chunk_x + 1) * 16,
                )
                &&& coords[2] matches Tree::Double(z) ==> double_ge(z, chunk_z * 16) && double_lt(
                    z,
                    (chunk_z + 1) * 16,
                )
            }
        }),
{
    lemma_entity_entries(entries, chunk_x, chunk_z, used, draws);
    lemma_position_lies_in_chunk(value_at(entries, "Pos"@)->Some_0, chunk_x, chunk_z);
}

} // verus!
