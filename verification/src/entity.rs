//! Repair of one entity: the enchantments of what it wears, holds and is, its
//! identifier, its position, and its passengers in turn. And the test for the
//! entities that are taken out of a chunk altogether.

use crate::double::{
    double_at_least, double_below, double_from_whole, double_ge, double_lt, double_of_int,
};
use crate::enchant::{
    applied_at, fix_item_enchantments, fix_items_enchantments, is_list, item_outcome,
    items_outcome, lemma_entry_replaced, value_at, with_value,
};
use crate::entity_laws::lemma_entity_keys_differ;
use crate::nbt::{
    entry_trees, find_entry, has_key, key_index, lemma_key_index_bounds, lemma_same_keys,
    lemma_tree_of_parts, list_trees, Tree, Value,
};
use crate::stats::{add_clipped, clip, FixStats, Tally};
use crate::uuids::{
    all_random, hyphenated, id_lanes, lanes_id, pack_lanes, unpack_lanes, uuid_text, UuidSet,
    UuidSource,
};
use vstd::prelude::*;

verus! {

/// Whether `item` carries the component `minecraft:custom_data`.
pub open spec fn has_custom_data(item: Tree) -> bool {
    item matches Tree::Compound(entries) && (value_at(entries, "components"@) matches Some(
        Tree::Compound(components),
    ) && has_key(components, "minecraft:custom_data"@))
}

/// Whether some value of a compound is an item with custom data.
pub open spec fn any_value_has_custom_data(entries: Seq<(Seq<char>, Tree)>) -> bool {
    exists|i: int| 0 <= i < entries.len() && has_custom_data(#[trigger] entries[i].1)
}

/// Whether some item of a list has custom data.
pub open spec fn any_item_has_custom_data(list: Seq<Tree>) -> bool {
    exists|i: int| 0 <= i < list.len() && has_custom_data(#[trigger] list[i])
}

/// Whether the list under `key` holds an item with custom data.
pub open spec fn list_has_custom_data(entries: Seq<(Seq<char>, Tree)>, key: Seq<char>) -> bool {
    value_at(entries, key) matches Some(Tree::List(list)) && any_item_has_custom_data(list)
}

/// Whether an entity is taken out of its chunk: it is a compound, and an item with
/// custom data is among the values of its `equipment` compound or in its list
/// `ArmorItems` or `HandItems`.
pub open spec fn carries_custom_data(entity: Tree) -> bool {
    entity matches Tree::Compound(entries) && ((value_at(entries, "equipment"@) matches Some(
        Tree::Compound(equipment),
    ) && any_value_has_custom_data(equipment)) || list_has_custom_data(entries, "ArmorItems"@)
        || list_has_custom_data(entries, "HandItems"@))
}

/// Whether `item` carries the component `minecraft:custom_data`.
pub fn item_has_custom_data(item: &Value) -> (found: bool)
    ensures
        found == has_custom_data(item@),
{
    proof {
        lemma_tree_of_parts(*item);
    }
    match item {
        Value::Compound(item_data) => {
            match find_entry(item_data, "components") {
                Some(j) => {
                    proof {
                        lemma_entry_replaced(item_data@, item_data@, j as int, "components"@);
                        lemma_tree_of_parts(item_data@[j as int].1);
                    }
                    match &item_data[j].1 {
                        Value::Compound(components) => {
                            find_entry(components, "minecraft:custom_data").is_some()
                        },
                        _ => false,
                    }
                },
                None => false,
            }
        },
        _ => false,
    }
}

/// Whether the list under `key` holds an item with custom data.
#[verifier::loop_isolation(false)]
fn list_entry_has_custom_data(entries: &Vec<(String, Value)>, key: &str) -> (found: bool)
    ensures
        found == list_has_custom_data(entry_trees(entries@), key@),
{
    match find_entry(entries, key) {
        Some(j) => {
            proof {
                lemma_entry_replaced(entries@, entries@, j as int, key@);
                lemma_tree_of_parts(entries@[j as int].1);
            }
            match &entries[j].1 {
                Value::List(items) => {
                    let mut i: usize = 0;
                    while i < items.len()
                        invariant
                            i <= items@.len(),
                            forall|k: int|
                                0 <= k < i ==> !has_custom_data(#[trigger] list_trees(items@)[k]),
                        decreases items@.len() - i,
                    {
                        if item_has_custom_data(&items[i]) {
                            assert(has_custom_data(list_trees(items@)[i as int]));
                            return true;
                        }
                        i += 1;
                    }
                    false
                },
                _ => false,
            }
        },
        None => false,
    }
}

/// Whether an entity is to be taken out of its chunk, because it wears or holds an item
/// that carries custom data.
#[verifier::loop_isolation(false)]
pub fn should_delete_entity(entity: &Value) -> (delete: bool)
    ensures
        delete == carries_custom_data(entity@),
{
    proof {
        lemma_tree_of_parts(*entity);
    }
    match entity {
        Value::Compound(entity_data) => {
            match find_entry(entity_data, "equipment") {
                Some(j) => {
                    proof {
                        lemma_entry_replaced(entity_data@, entity_data@, j as int, "equipment"@);
                        lemma_tree_of_parts(entity_data@[j as int].1);
                    }
                    match &entity_data[j].1 {
                        Value::Compound(equipment) => {
                            let mut i: usize = 0;
                            while i < equipment.len()
                                invariant
                                    i <= equipment@.len(),
                                    forall|k: int|
                                        0 <= k < i ==> !has_custom_data(
                                            #[trigger] entry_trees(equipment@)[k].1,
                                        ),
                                decreases equipment@.len() - i,
                            {
                                if item_has_custom_data(&equipment[i].1) {
                                    assert(has_custom_data(entry_trees(equipment@)[i as int].1));
                                    return true;
                                }
                                i += 1;
                            }
                        },
                        _ => {},
                    }
                },
                None => {},
            }
            if list_entry_has_custom_data(entity_data, "ArmorItems") {
                return true;
            }
            list_entry_has_custom_data(entity_data, "HandItems")
        },
        _ => false,
    }
}

/// The text by which an identifier is known: a string as it stands, four lanes of an int
/// array in canonical form. Any other value is no identifier.
pub open spec fn uuid_text_of(t: Tree) -> Option<Seq<char>> {
    match t {
        Tree::String(text) => Some(text),
        Tree::IntArray(lanes) => if lanes.len() == 4 {
            Some(hyphenated(lanes_id(lanes)))
        } else {
            None
        },
        _ => None,
    }
}

/// `t` with the identifier `id` written in the form that `t` has.
pub open spec fn with_uuid(t: Tree, id: u128) -> Tree {
    match t {
        Tree::String(_) => Tree::String(hyphenated(id)),
        Tree::IntArray(_) => Tree::IntArray(id_lanes(id)),
        _ => t,
    }
}

/// What the repair makes of the value of a `UUID` entry, given the identifiers seen so
/// far and the fresh ones to come: the value, the identifiers seen after it, and the
/// number of fresh identifiers used. An identifier that was seen before is replaced by
/// the next fresh one; in either case the identifier that the entity ends up with counts
/// as seen.
pub open spec fn uuid_outcome(t: Tree, used: Set<Seq<char>>, draws: Seq<u128>) -> (
    Tree,
    Set<Seq<char>>,
    nat,
) {
    match uuid_text_of(t) {
        None => (t, used, 0),
        Some(text) => if used.contains(text) {
            (with_uuid(t, draws[0]), used.insert(hyphenated(draws[0])), 1)
        } else {
            (t, used.insert(text), 0)
        },
    }
}

/// Repairs the identifier of an entity: where it was seen before in the region, a fresh
/// random one replaces it, written as a string or as four lanes as the old one was.
pub fn fix_entity_uuid(
    uuid_value: &mut Value,
    used_uuids: &mut UuidSet,
    source: &mut UuidSource,
) -> (stats: FixStats)
    ensures
        final(source).extends(old(source)),
        all_random(final(source).since(old(source))),
        ({
            let draws = final(source).since(old(source));
            let outcome = uuid_outcome(old(uuid_value)@, old(used_uuids)@, draws);
            &&& final(uuid_value)@ == outcome.0
            &&& final(used_uuids)@ == outcome.1
            &&& draws.len() == outcome.2
            &&& stats.counts(Tally { uuids_regenerated: outcome.2, ..Tally::zero() })
        }),
{
    let mut stats = FixStats::new();
    assert(source.since(old(source)) =~= Seq::<u128>::empty());
    let text: String = match uuid_value {
        Value::String(s) => s.clone(),
        Value::IntArray(lanes) => {
            if lanes.len() == 4 {
                uuid_text(pack_lanes(lanes))
            } else {
                return stats;
            }
        },
        _ => {
            return stats;
        },
    };
    assert(uuid_text_of(old(uuid_value)@) == Some(text@));
    if used_uuids.contains(&text) {
        let id: u128 = source.draw();
        assert(source.since(old(source)) =~= seq![id]);
        let new_text: String = uuid_text(id);
        match uuid_value {
            Value::String(s) => {
                *s = uuid_text(id);
            },
            Value::IntArray(lanes) => {
                unpack_lanes(id, lanes);
            },
            _ => {},
        }
        used_uuids.insert(new_text);
        stats.uuids_regenerated = 1;
    } else {
        used_uuids.insert(text);
    }
    stats
}

/// Whether `t` is a double that does not lie in the blocks of chunk coordinate `chunk`,
/// which reach from `chunk * 16` up to, and not including, `(chunk + 1) * 16`. What is no
/// number does not lie there.
pub open spec fn axis_outside(t: Tree, chunk: int) -> bool {
    t matches Tree::Double(bits) && !(double_ge(bits, chunk * 16) && double_lt(
        bits,
        (chunk + 1) * 16,
    ))
}

/// `t`, or the middle of the chunk where `t` lies outside of it.
pub open spec fn axis_outcome(t: Tree, chunk: int) -> Tree {
    if axis_outside(t, chunk) {
        Tree::Double(double_of_int(chunk * 16 + 8))
    } else {
        t
    }
}

/// What the repair makes of the value of a `Pos` entry: in a list of three or more, the
/// first and the third coordinate are brought into the chunk, which counts as one repair
/// however many of them were outside.
pub open spec fn position_outcome(pos: Tree, chunk_x: int, chunk_z: int) -> (Tree, nat) {
    match pos {
        Tree::List(coords) => if coords.len() >= 3 {
            (
                Tree::List(
                    coords.update(0, axis_outcome(coords[0], chunk_x)).update(
                        2,
                        axis_outcome(coords[2], chunk_z),
                    ),
                ),
                if axis_outside(coords[0], chunk_x) || axis_outside(coords[2], chunk_z) {
                    1
                } else {
                    0
                },
            )
        } else {
            (pos, 0)
        },
        _ => (pos, 0),
    }
}

/// Brings one coordinate into the chunk.
fn fix_axis(coord: &mut Value, chunk: i32) -> (fixed: bool)
    ensures
        final(coord)@ == axis_outcome(old(coord)@, chunk as int),
        fixed == axis_outside(old(coord)@, chunk as int),
{
    match coord {
        Value::Double(bits) => {
            let expected_min: i64 = (chunk as i64) * 16;
            let expected_max: i64 = (chunk as i64 + 1) * 16;
            if !(double_at_least(*bits, expected_min) && double_below(*bits, expected_max)) {
                *bits = double_from_whole(expected_min + 8);
                true
            } else {
                false
            }
        },
        _ => false,
    }
}

/// Repairs the position of an entity in chunk `(chunk_x, chunk_z)`: a first or third
/// coordinate that does not lie in the chunk, or is no number, is set to the chunk's
/// middle. The second coordinate is not looked at.
pub fn fix_entity_position(pos: &mut Value, chunk_x: i32, chunk_z: i32) -> (stats: FixStats)
    ensures
        final(pos)@ == position_outcome(old(pos)@, chunk_x as int, chunk_z as int).0,
        stats.counts(
            Tally {
                positions_fixed: position_outcome(old(pos)@, chunk_x as int, chunk_z as int).1,
                ..Tally::zero()
            },
        ),
{
    let mut stats = FixStats::new();
    proof {
        lemma_tree_of_parts(*pos);
    }
    match pos {
        Value::List(coords) => {
            if coords.len() >= 3 {
                let ghost before = list_trees(coords@);
                let x_fixed: bool = fix_axis(&mut coords[0], chunk_x);
                let z_fixed: bool = fix_axis(&mut coords[2], chunk_z);
                if x_fixed || z_fixed {
                    stats.positions_fixed = 1;
                }
                proof {
                    lemma_tree_of_parts(Value::List(*coords));
                    assert(list_trees(coords@) =~= before.update(
                        0,
                        axis_outcome(before[0], chunk_x as int),
                    ).update(2, axis_outcome(before[2], chunk_z as int)));
                }
            }
        },
        _ => {},
    }
    stats
}

/// What a repair gives: the tree, the identifiers seen after it, and the numbers. The
/// number of regenerated identifiers is also the number of fresh identifiers used.
pub struct Repaired {
    pub tree: Tree,
    pub used: Set<Seq<char>>,
    pub tally: Tally,
}

/// What the repair of a list of entities gives.
pub struct RepairedList {
    pub trees: Seq<Tree>,
    pub used: Set<Seq<char>>,
    pub tally: Tally,
}

/// The list that the first entry with the key `key` holds, where it holds one.
pub open spec fn list_at(entries: Seq<(Seq<char>, Tree)>, key: Seq<char>) -> Option<Seq<Tree>> {
    let index = key_index(entries, key);
    if 0 <= index < entries.len() {
        match entries[index].1 {
            Tree::List(list) => Some(list),
            _ => None,
        }
    } else {
        None
    }
}

/// What the repair of the `UUID` entry makes of the entries of an entity.
pub open spec fn uuid_entry_outcome(
    entries: Seq<(Seq<char>, Tree)>,
    used: Set<Seq<char>>,
    draws: Seq<u128>,
) -> (Seq<(Seq<char>, Tree)>, Set<Seq<char>>, nat) {
    match value_at(entries, "UUID"@) {
        Some(value) => (
            with_value(entries, "UUID"@, uuid_outcome(value, used, draws).0),
            uuid_outcome(value, used, draws).1,
            uuid_outcome(value, used, draws).2,
        ),
        None => (entries, used, 0),
    }
}

/// What the repair makes of an entity in chunk `(chunk_x, chunk_z)`, given the
/// identifiers seen so far and the fresh ones to come. In a compound, in this order: the
/// items under `equipment`, `ArmorItems` and `HandItems`, the item under `Item`, the
/// identifier under `UUID`, the position under `Pos`, and the entities in the list
/// `Passengers`, each repaired as this one is. The entity counts as fixed where any of
/// this repaired something. What is no compound stays as it is.
pub open spec fn entity_outcome(
    entity: Tree,
    chunk_x: int,
    chunk_z: int,
    used: Set<Seq<char>>,
    draws: Seq<u128>,
) -> Repaired
    decreases entity, 0int,
{
    match entity {
        Tree::Compound(entries) => {
            let worn = applied_at(entries, "equipment"@, |v: Tree| items_outcome(v));
            let armor = applied_at(worn.0, "ArmorItems"@, |v: Tree| items_outcome(v));
            let held = applied_at(armor.0, "HandItems"@, |v: Tree| items_outcome(v));
            let item = applied_at(held.0, "Item"@, |v: Tree| item_outcome(v));
            let enchantments = worn.1 + armor.1 + held.1 + item.1;
            let uuid = uuid_entry_outcome(item.0, used, draws);
            let placed = applied_at(
                uuid.0,
                "Pos"@,
                |v: Tree| position_outcome(v, chunk_x, chunk_z),
            );
            let riders = match list_at(entries, "Passengers"@) {
                Some(list) => entities_outcome(
                    list,
                    list.len() as int,
                    chunk_x,
                    chunk_z,
                    uuid.1,
                    draws.skip(uuid.2 as int),
                ),
                None => RepairedList { trees: Seq::empty(), used: uuid.1, tally: Tally::zero() },
            };
            let manned = if list_at(entries, "Passengers"@).is_some() {
                with_value(placed.0, "Passengers"@, Tree::List(riders.trees))
            } else {
                placed.0
            };
            let modified = enchantments > 0 || uuid.2 > 0 || placed.1 > 0
                || riders.tally.any_repair();
            Repaired {
                tree: Tree::Compound(manned),
                used: riders.used,
                tally: Tally {
                    files_processed: 0,
                    chunks_fixed: 0,
                    entities_fixed: riders.tally.entities_fixed + if modified {
                        1nat
                    } else {
                        0nat
                    },
                    enchantments_fixed: enchantments + riders.tally.enchantments_fixed,
                    uuids_regenerated: uuid.2 + riders.tally.uuids_regenerated,
                    positions_fixed: placed.1 + riders.tally.positions_fixed,
                },
            }
        },
        _ => Repaired { tree: entity, used, tally: Tally::zero() },
    }
}

/// What the repair makes of the first `n` entities of a list, one after the other: each
/// sees the identifiers that the ones before it left, and takes the fresh ones that they
/// left over.
pub open spec fn entities_outcome(
    list: Seq<Tree>,
    n: int,
    chunk_x: int,
    chunk_z: int,
    used: Set<Seq<char>>,
    draws: Seq<u128>,
) -> RepairedList
    decreases list, n,
{
    if n <= 0 || n > list.len() {
        RepairedList { trees: Seq::empty(), used, tally: Tally::zero() }
    } else {
        let before = entities_outcome(list, n - 1, chunk_x, chunk_z, used, draws);
        let this = entity_outcome(
            list[n - 1],
            chunk_x,
            chunk_z,
            before.used,
            draws.skip(before.tally.uuids_regenerated as int),
        );
        RepairedList {
            trees: before.trees.push(this.tree),
            used: this.used,
            tally: before.tally.plus(this.tally),
        }
    }
}

/// Whether `after` is `before` with nothing changed but the value of the first entry with
/// the key `key`.
pub open spec fn only_value_changed(
    before: Seq<(String, Value)>,
    after: Seq<(String, Value)>,
    key: Seq<char>,
) -> bool {
    &&& after.len() == before.len()
    &&& forall|k: int| 0 <= k < before.len() ==> (#[trigger] after[k]).0 == before[k].0
    &&& forall|k: int|
        0 <= k < before.len() && before[k].0@ != key ==> #[trigger] after[k] == before[k]
}

/// Repairs the items under one key of an entity.
fn fix_items_at(entity_data: &mut Vec<(String, Value)>, key: &str) -> (fixed: usize)
    ensures
        entry_trees(final(entity_data)@) == applied_at(
            entry_trees(old(entity_data)@),
            key@,
            |v: Tree| items_outcome(v),
        ).0,
        fixed == clip(
            applied_at(entry_trees(old(entity_data)@), key@, |v: Tree| items_outcome(v)).1 as int,
        ),
        only_value_changed(old(entity_data)@, final(entity_data)@, key@),
{
    let ghost before = entity_data@;
    match find_entry(entity_data, key) {
        Some(j) => {
            let stats = fix_items_enchantments(&mut entity_data[j].1);
            proof {
                lemma_entry_replaced(before, entity_data@, j as int, key@);
                lemma_key_index_bounds(entry_trees(before), key@, 0);
            }
            stats.enchantments_fixed
        },
        None => 0,
    }
}

/// Repairs the item under `Item` of an entity.
fn fix_item_at(entity_data: &mut Vec<(String, Value)>) -> (fixed: usize)
    ensures
        entry_trees(final(entity_data)@) == applied_at(
            entry_trees(old(entity_data)@),
            "Item"@,
            |v: Tree| item_outcome(v),
        ).0,
        fixed == clip(
            applied_at(entry_trees(old(entity_data)@), "Item"@, |v: Tree| item_outcome(v)).1 as int,
        ),
        only_value_changed(old(entity_data)@, final(entity_data)@, "Item"@),
{
    let ghost before = entity_data@;
    match find_entry(entity_data, "Item") {
        Some(j) => {
            let stats = fix_item_enchantments(&mut entity_data[j].1);
            proof {
                lemma_entry_replaced(before, entity_data@, j as int, "Item"@);
                lemma_key_index_bounds(entry_trees(before), "Item"@, 0);
            }
            stats.enchantments_fixed
        },
        None => 0,
    }
}

/// Repairs the identifier under `UUID` of an entity.
fn fix_uuid_at(
    entity_data: &mut Vec<(String, Value)>,
    used_uuids: &mut UuidSet,
    source: &mut UuidSource,
) -> (regenerated: usize)
    ensures
        final(source).extends(old(source)),
        all_random(final(source).since(old(source))),
        ({
            let draws = final(source).since(old(source));
            let outcome = uuid_entry_outcome(
                entry_trees(old(entity_data)@),
                old(used_uuids)@,
                draws,
            );
            &&& entry_trees(final(entity_data)@) == outcome.0
            &&& final(used_uuids)@ == outcome.1
            &&& draws.len() == outcome.2
            &&& regenerated == outcome.2
            &&& outcome.2 <= 1
        }),
        only_value_changed(old(entity_data)@, final(entity_data)@, "UUID"@),
{
    let ghost before = entity_data@;
    match find_entry(entity_data, "UUID") {
        Some(j) => {
            let stats = fix_entity_uuid(&mut entity_data[j].1, used_uuids, source);
            proof {
                lemma_entry_replaced(before, entity_data@, j as int, "UUID"@);
                lemma_key_index_bounds(entry_trees(before), "UUID"@, 0);
            }
            stats.uuids_regenerated
        },
        None => {
            assert(source.since(old(source)) =~= Seq::<u128>::empty());
            0
        },
    }
}

/// Repairs the position under `Pos` of an entity.
fn fix_position_at(entity_data: &mut Vec<(String, Value)>, chunk_x: i32, chunk_z: i32) -> (fixed:
    usize)
    ensures
        entry_trees(final(entity_data)@) == applied_at(
            entry_trees(old(entity_data)@),
            "Pos"@,
            |v: Tree| position_outcome(v, chunk_x as int, chunk_z as int),
        ).0,
        fixed == applied_at(
            entry_trees(old(entity_data)@),
            "Pos"@,
            |v: Tree| position_outcome(v, chunk_x as int, chunk_z as int),
        ).1,
        fixed <= 1,
        only_value_changed(old(entity_data)@, final(entity_data)@, "Pos"@),
{
    let ghost before = entity_data@;
    match find_entry(entity_data, "Pos") {
        Some(j) => {
            let stats = fix_entity_position(&mut entity_data[j].1, chunk_x, chunk_z);
            proof {
                lemma_entry_replaced(before, entity_data@, j as int, "Pos"@);
                lemma_key_index_bounds(entry_trees(before), "Pos"@, 0);
            }
            stats.positions_fixed
        },
        None => 0,
    }
}

/// The repair of an entity looks only at as many fresh identifiers as it uses: with more
/// of them to come, it gives the same.
pub proof fn lemma_entity_ignores_later_draws(
    entity: Tree,
    chunk_x: int,
    chunk_z: int,
    used: Set<Seq<char>>,
    draws: Seq<u128>,
    more: Seq<u128>,
)
    requires
        draws.is_prefix_of(more),
        entity_outcome(entity, chunk_x, chunk_z, used, draws).tally.uuids_regenerated
            <= draws.len(),
    ensures
        entity_outcome(entity, chunk_x, chunk_z, used, more) == entity_outcome(
            entity,
            chunk_x,
            chunk_z,
            used,
            draws,
        ),
    decreases entity, 0int,
{
    match entity {
        Tree::Compound(entries) => {
            let worn = applied_at(entries, "equipment"@, |v: Tree| items_outcome(v));
            let armor = applied_at(worn.0, "ArmorItems"@, |v: Tree| items_outcome(v));
            let held = applied_at(armor.0, "HandItems"@, |v: Tree| items_outcome(v));
            let item = applied_at(held.0, "Item"@, |v: Tree| item_outcome(v));
            let uuid = uuid_entry_outcome(item.0, used, draws);
            let uuid_more = uuid_entry_outcome(item.0, used, more);
            assert(uuid_more == uuid) by {
                if uuid.2 > 0 {
                    assert(draws[0] == more[0]);
                }
            }
            match list_at(entries, "Passengers"@) {
                Some(list) => {
                    let n = uuid.2 as int;
                    assert(draws.skip(n).is_prefix_of(more.skip(n)));
                    lemma_entities_ignore_later_draws(
                        list,
                        list.len() as int,
                        chunk_x,
                        chunk_z,
                        uuid.1,
                        draws.skip(n),
                        more.skip(n),
                    );
                },
                None => {},
            }
        },
        _ => {},
    }
}

/// The repair of a list of entities looks only at as many fresh identifiers as it uses.
pub proof fn lemma_entities_ignore_later_draws(
    list: Seq<Tree>,
    n: int,
    chunk_x: int,
    chunk_z: int,
    used: Set<Seq<char>>,
    draws: Seq<u128>,
    more: Seq<u128>,
)
    requires
        draws.is_prefix_of(more),
        entities_outcome(list, n, chunk_x, chunk_z, used, draws).tally.uuids_regenerated
            <= draws.len(),
    ensures
        entities_outcome(list, n, chunk_x, chunk_z, used, more) == entities_outcome(
            list,
            n,
            chunk_x,
            chunk_z,
            used,
            draws,
        ),
    decreases list, n,
{
    if 0 < n <= list.len() {
        let before = entities_outcome(list, n - 1, chunk_x, chunk_z, used, draws);
        lemma_entities_ignore_later_draws(list, n - 1, chunk_x, chunk_z, used, draws, more);
        let k = before.tally.uuids_regenerated as int;
        assert(draws.skip(k).is_prefix_of(more.skip(k)));
        lemma_entity_ignores_later_draws(
            list[n - 1],
            chunk_x,
            chunk_z,
            before.used,
            draws.skip(k),
            more.skip(k),
        );
    }
}

/// A change of the value under one key leaves the entry under another key as it is, and
/// where it is.
proof fn lemma_other_entry_stays(
    before: Seq<(String, Value)>,
    after: Seq<(String, Value)>,
    changed: Seq<char>,
    other: Seq<char>,
)
    requires
        only_value_changed(before, after, changed),
        changed != other,
    ensures
        key_index(entry_trees(after), other) == key_index(entry_trees(before), other),
        has_key(entry_trees(before), other) ==> after[key_index(entry_trees(before), other)]
            == before[key_index(entry_trees(before), other)],
{
    lemma_same_keys(entry_trees(after), entry_trees(before), other, 0);
    lemma_key_index_bounds(entry_trees(before), other, 0);
}

/// Repairs the entities of a list, one after the other.
pub fn fix_entities(
    list: &mut Vec<Value>,
    chunk_x: i32,
    chunk_z: i32,
    used_uuids: &mut UuidSet,
    source: &mut UuidSource,
) -> (stats: FixStats)
    ensures
        final(source).extends(old(source)),
        all_random(final(source).since(old(source))),
        final(list)@.len() == old(list)@.len(),
        stats.files_processed == 0 && stats.chunks_fixed == 0,
        ({
            let draws = final(source).since(old(source));
            let outcome = entities_outcome(
                list_trees(old(list)@),
                old(list)@.len() as int,
                chunk_x as int,
                chunk_z as int,
                old(used_uuids)@,
                draws,
            );
            &&& list_trees(final(list)@) == outcome.trees
            &&& final(used_uuids)@ == outcome.used
            &&& draws.len() == outcome.tally.uuids_regenerated
            &&& stats.counts(outcome.tally)
        }),
    decreases *old(list), 1int,
{
    let ghost before = list_trees(list@);
    let ghost used0 = used_uuids@;
    let mut stats = FixStats::new();
    let n: usize = list.len();
    let mut i: usize = 0;
    assert(source.since(old(source)) =~= Seq::<u128>::empty());
    while i < n
        invariant
            i <= n,
            n == before.len(),
            list@.len() == n,
            before == list_trees(old(list)@),
            used0 == old(used_uuids)@,
            source.extends(old(source)),
            all_random(source.since(old(source))),
            stats.files_processed == 0 && stats.chunks_fixed == 0,
            ({
                let outcome = entities_outcome(
                    before,
                    i as int,
                    chunk_x as int,
                    chunk_z as int,
                    used0,
                    source.since(old(source)),
                );
                &&& outcome.trees.len() == i
                &&& forall|k: int| 0 <= k < i ==> #[trigger] list@[k]@ == outcome.trees[k]
                &&& used_uuids@ == outcome.used
                &&& source.since(old(source)).len() == outcome.tally.uuids_regenerated
                &&& stats.counts(outcome.tally)
            }),
            forall|k: int| i <= k < n ==> #[trigger] list@[k] == old(list)@[k],
        decreases n - i,
    {
        let ghost made = source.since(old(source));
        let ghost earlier = *source;
        let ghost state = entities_outcome(
            before,
            i as int,
            chunk_x as int,
            chunk_z as int,
            used0,
            made,
        );
        let ghost items = list@;
        assert(decreases_to!(*old(list) => list@[i as int]));
        let entity_stats = fix_entity(&mut list[i], chunk_x, chunk_z, used_uuids, source);
        proof {
            let drawn = source.since(&earlier);
            let made_now = source.since(old(source));
            assert(made_now =~= made + drawn);
            assert(made.is_prefix_of(made_now));
            lemma_entities_ignore_later_draws(
                before,
                i as int,
                chunk_x as int,
                chunk_z as int,
                used0,
                made,
                made_now,
            );
            assert(made_now.skip(made.len() as int) =~= drawn);
            let this = entity_outcome(
                before[i as int],
                chunk_x as int,
                chunk_z as int,
                state.used,
                drawn,
            );
            let next = entities_outcome(
                before,
                i + 1,
                chunk_x as int,
                chunk_z as int,
                used0,
                made_now,
            );
            assert(next.trees == state.trees.push(this.tree));
            assert(next.tally == state.tally.plus(this.tally));
            assert forall|k: int| 0 <= k < n && k != i implies list@[k] == items[k] by {}
        }
        stats.merge(&entity_stats);
        i += 1;
    }
    proof {
        let outcome = entities_outcome(
            before,
            n as int,
            chunk_x as int,
            chunk_z as int,
            used0,
            source.since(old(source)),
        );
        assert(list_trees(list@) =~= outcome.trees);
    }
    stats
}

/// Repairs one entity of chunk `(chunk_x, chunk_z)`: the enchantments of the items that
/// it wears and holds and of the item that it is, its identifier, its position, and then
/// its passengers. `used_uuids` holds the identifiers seen so far in the region, and
/// `source` gives the fresh ones.
pub fn fix_entity(
    entity: &mut Value,
    chunk_x: i32,
    chunk_z: i32,
    used_uuids: &mut UuidSet,
    source: &mut UuidSource,
) -> (stats: FixStats)
    ensures
        final(source).extends(old(source)),
        all_random(final(source).since(old(source))),
        ({
            let draws = final(source).since(old(source));
            let outcome = entity_outcome(
                old(entity)@,
                chunk_x as int,
                chunk_z as int,
                old(used_uuids)@,
                draws,
            );
            &&& final(entity)@ == outcome.tree
            &&& final(used_uuids)@ == outcome.used
            &&& draws.len() == outcome.tally.uuids_regenerated
            &&& stats.counts(outcome.tally)
        }),
        stats.files_processed == 0 && stats.chunks_fixed == 0,
    decreases *old(entity), 0int,
{
    let mut stats = FixStats::new();
    proof {
        lemma_tree_of_parts(*entity);
        lemma_entity_keys_differ();
    }
    assert(source.since(old(source)) =~= Seq::<u128>::empty());
    match entity {
        Value::Compound(entity_data) => {
            let ghost entries0 = entity_data@;
            let ghost trees0 = entry_trees(entries0);
            let ghost passengers_at = key_index(trees0, "Passengers"@);
            let worn: usize = fix_items_at(entity_data, "equipment");
            let ghost entries1 = entity_data@;
            let armor: usize = fix_items_at(entity_data, "ArmorItems");
            let ghost entries2 = entity_data@;
            let held: usize = fix_items_at(entity_data, "HandItems");
            let ghost entries3 = entity_data@;
            let item: usize = fix_item_at(entity_data);
            let ghost entries4 = entity_data@;
            let regenerated: usize = fix_uuid_at(entity_data, used_uuids, source);
            let ghost entries5 = entity_data@;
            let ghost middle = *source;
            let ghost first_draws = source.since(old(source));
            let positions: usize = fix_position_at(entity_data, chunk_x, chunk_z);
            let ghost entries6 = entity_data@;
            proof {
                lemma_other_entry_stays(entries0, entries1, "equipment"@, "Passengers"@);
                lemma_other_entry_stays(entries1, entries2, "ArmorItems"@, "Passengers"@);
                lemma_other_entry_stays(entries2, entries3, "HandItems"@, "Passengers"@);
                lemma_other_entry_stays(entries3, entries4, "Item"@, "Passengers"@);
                lemma_other_entry_stays(entries4, entries5, "UUID"@, "Passengers"@);
                lemma_other_entry_stays(entries5, entries6, "Pos"@, "Passengers"@);
                lemma_key_index_bounds(trees0, "Passengers"@, 0);
            }
            let mut riders = FixStats::new();
            match find_entry(entity_data, "Passengers") {
                Some(j) => {
                    assert(j == passengers_at);
                    assert(entries6[j as int] == entries0[j as int]);
                    proof {
                        lemma_tree_of_parts(entries0[j as int].1);
                    }
                    if is_list(&entity_data[j].1) {
                        match &mut entity_data[j].1 {
                            Value::List(passengers) => {
                                assert(decreases_to!(*old(entity) => *passengers));
                                riders = fix_entities(
                                    passengers,
                                    chunk_x,
                                    chunk_z,
                                    used_uuids,
                                    source,
                                );
                                proof {
                                    lemma_tree_of_parts(Value::List(*passengers));
                                }
                            },
                            _ => {},
                        }
                        proof {
                            lemma_entry_replaced(entries6, entity_data@, j as int, "Passengers"@);
                        }
                    } else {
                        assert(source.since(&middle) =~= Seq::<u128>::empty());
                    }
                },
                None => {
                    assert(source.since(&middle) =~= Seq::<u128>::empty());
                },
            }
            proof {
                let draws = source.since(old(source));
                let later = source.since(&middle);
                assert(draws =~= first_draws + later);
                assert(draws.skip(first_draws.len() as int) =~= later);
                if first_draws.len() > 0 {
                    assert(draws[0] == first_draws[0]);
                }
                lemma_tree_of_parts(Value::Compound(*entity_data));
            }
            let enchantments: usize = add_clipped(
                add_clipped(add_clipped(worn, armor), held),
                item,
            );
            let modified: bool = enchantments > 0 || regenerated > 0 || positions > 0
                || riders.any_repair();
            let own: usize = if modified {
                1
            } else {
                0
            };
            stats.entities_fixed = add_clipped(riders.entities_fixed, own);
            stats.enchantments_fixed = add_clipped(enchantments, riders.enchantments_fixed);
            stats.uuids_regenerated = add_clipped(regenerated, riders.uuids_regenerated);
            stats.positions_fixed = add_clipped(positions, riders.positions_fixed);
        },
        _ => {},
    }
    stats
}

} // verus!
