//! What holds of the repair of enchantments: repaired once, an item is not
//! repaired again, and the repair neither gives an item custom data nor takes
//! it away.

use crate::enchant::{
    applied_at, components_outcome, custom_data_outcome, enchantment_list_outcome,
    enchantments_component_outcome, equipment_slots, item_list_fixes, item_outcome, items_outcome,
    lvl_fixed, lvl_fixes, raised_levels, slots_outcome, value_at, with_value, without_key,
    zero_levels,
};
use crate::entity::{any_item_has_custom_data, any_value_has_custom_data, has_custom_data};
use crate::nbt::{
    has_key, key_index, keys_differ, lemma_key_index_bounds, lemma_same_keys, well_keyed, Tree,
};
use crate::repair_laws::{
    lemma_applied_again, lemma_applied_at, lemma_only_zero_lvl_is_raised, lemma_with_value,
};
use vstd::prelude::*;

verus! {

/// An item of a well-keyed list is well-keyed.
pub proof fn lemma_well_keyed_item(list: Seq<Tree>, i: int)
    requires
        well_keyed(Tree::List(list)),
        0 <= i < list.len(),
    ensures
        well_keyed(list[i]),
{
    let t = Tree::List(list);
    assert(t->List_0 == list);
    assert(forall|k: int| 0 <= k < list.len() ==> well_keyed(#[trigger] list[k]));
}

/// What stands under a key of a well-keyed compound is well-keyed.
pub proof fn lemma_well_keyed_value(entries: Seq<(Seq<char>, Tree)>, key: Seq<char>)
    requires
        well_keyed(Tree::Compound(entries)),
    ensures
        value_at(entries, key) matches Some(value) ==> well_keyed(value),
{
    lemma_key_index_bounds(entries, key, 0);
    if has_key(entries, key) {
        assert(well_keyed(entries[key_index(entries, key)].1));
    }
}

/// No level of zero is left among raised levels.
pub proof fn lemma_no_zero_levels_left(entries: Seq<(Seq<char>, Tree)>, n: int)
    requires
        0 <= n <= entries.len(),
    ensures
        zero_levels(raised_levels(entries), n) == 0,
        raised_levels(raised_levels(entries)) == raised_levels(entries),
    decreases n,
{
    if n > 0 {
        lemma_no_zero_levels_left(entries, n - 1);
    }
    assert(raised_levels(raised_levels(entries)) =~= raised_levels(entries));
}

/// No `lvl` of zero is left in a repaired list of enchantments.
proof fn lemma_no_lvl_fix_left(list: Seq<Tree>, n: int)
    requires
        0 <= n <= list.len(),
    ensures
        lvl_fixes(Seq::new(list.len(), |i: int| lvl_fixed(list[i])), n) == 0,
    decreases n,
{
    if n > 0 {
        lemma_no_lvl_fix_left(list, n - 1);
        lemma_only_zero_lvl_is_raised(list[n - 1]);
    }
}

/// A repaired list of enchantments is not repaired again.
pub proof fn lemma_enchantment_list_again(t: Tree)
    ensures
        enchantment_list_outcome(enchantment_list_outcome(t).0) == (
            enchantment_list_outcome(t).0,
            0nat,
        ),
{
    match t {
        Tree::List(list) => {
            let once = Seq::new(list.len(), |i: int| lvl_fixed(list[i]));
            lemma_no_lvl_fix_left(list, list.len() as int);
            assert forall|i: int| 0 <= i < list.len() implies lvl_fixed(#[trigger] once[i])
                == once[i] by {
                lemma_only_zero_lvl_is_raised(list[i]);
                lemma_only_zero_lvl_is_raised(once[i]);
            }
            assert(Seq::new(once.len(), |i: int| lvl_fixed(once[i])) =~= once);
        },
        _ => {},
    }
}

/// A repaired component `minecraft:enchantments` is not repaired again.
pub proof fn lemma_enchantments_component_again(t: Tree)
    ensures
        enchantments_component_outcome(enchantments_component_outcome(t).0) == (
            enchantments_component_outcome(t).0,
            0nat,
        ),
{
    match t {
        Tree::Compound(map) => {
            lemma_key_index_bounds(map, "levels"@, 0);
            match value_at(map, "levels"@) {
                Some(Tree::Compound(levels)) => {
                    let raised = Tree::Compound(raised_levels(levels));
                    lemma_with_value(map, "levels"@, raised, "levels"@);
                    lemma_no_zero_levels_left(levels, levels.len() as int);
                    let once = with_value(map, "levels"@, raised);
                    assert(with_value(once, "levels"@, raised) =~= once);
                },
                _ => {
                    let once = raised_levels(map);
                    lemma_no_zero_levels_left(map, map.len() as int);
                    lemma_same_keys(once, map, "levels"@, 0);
                },
            }
        },
        _ => {},
    }
}

/// Taking the first entry with a key out of entries whose keys differ leaves no entry
/// with that key, and leaves every other key with what stood under it.
pub proof fn lemma_without_key(entries: Seq<(Seq<char>, Tree)>, key: Seq<char>, other: Seq<char>)
    requires
        keys_differ(entries),
    ensures
        !has_key(without_key(entries, key), key),
        keys_differ(without_key(entries, key)),
        other != key ==> value_at(without_key(entries, key), other) == value_at(entries, other),
        other != key ==> has_key(without_key(entries, key), other) == has_key(entries, other),
{
    lemma_key_index_bounds(entries, key, 0);
    if has_key(entries, key) {
        let at = key_index(entries, key);
        let rest = entries.remove(at);
        assert forall|i: int| 0 <= i < rest.len() implies (#[trigger] rest[i]).0 != key by {
            if i < at {
                assert(rest[i] == entries[i]);
                assert(entries[i].0 != entries[at].0);
            } else {
                assert(rest[i] == entries[i + 1]);
                assert(entries[at].0 != entries[i + 1].0);
            }
        }
        lemma_absent_key(rest, key, 0);
        assert forall|i: int, j: int| 0 <= i < j < rest.len() implies (#[trigger] rest[i]).0 != (
        #[trigger] rest[j]).0 by {
            let a = if i < at {
                i
            } else {
                i + 1
            };
            let b = if j < at {
                j
            } else {
                j + 1
            };
            assert(rest[i] == entries[a] && rest[j] == entries[b]);
            assert(entries[a].0 != entries[b].0);
        }
        if other != key {
            lemma_key_index_bounds(entries, other, 0);
            lemma_key_index_bounds(rest, other, 0);
            if has_key(entries, other) {
                let there = key_index(entries, other);
                let shifted = if there < at {
                    there
                } else {
                    there - 1
                };
                assert(rest[shifted] == entries[there]);
                lemma_first_with_key(rest, other, shifted);
            } else {
                lemma_no_key_means_none(entries, other, 0);
                assert forall|i: int| 0 <= i < rest.len() implies (#[trigger] rest[i]).0
                    != other by {
                    let a = if i < at {
                        i
                    } else {
                        i + 1
                    };
                    assert(rest[i] == entries[a]);
                }
                lemma_absent_key(rest, other, 0);
            }
        }
    }
}

/// Where no entry at or after `from` has the key, the lookup finds none.
pub proof fn lemma_absent_key(entries: Seq<(Seq<char>, Tree)>, key: Seq<char>, from: int)
    requires
        0 <= from,
        forall|i: int| from <= i < entries.len() ==> (#[trigger] entries[i]).0 != key,
    ensures
        crate::nbt::key_index_from(entries, key, from) == entries.len(),
    decreases entries.len() - from,
{
    if from < entries.len() {
        assert(entries[from].0 != key);
        lemma_absent_key(entries, key, from + 1);
    }
}

/// Where the lookup finds none, no entry at or after `from` has the key.
pub proof fn lemma_no_key_means_none(entries: Seq<(Seq<char>, Tree)>, key: Seq<char>, from: int)
    requires
        0 <= from,
        crate::nbt::key_index_from(entries, key, from) >= entries.len(),
    ensures
        forall|i: int| from <= i < entries.len() ==> (#[trigger] entries[i]).0 != key,
    decreases entries.len() - from,
{
    if from < entries.len() {
        lemma_key_index_bounds(entries, key, from);
        lemma_no_key_means_none(entries, key, from + 1);
    }
}

/// In entries whose keys differ, the entry with a key is the first with that key.
pub proof fn lemma_first_with_key(entries: Seq<(Seq<char>, Tree)>, key: Seq<char>, at: int)
    requires
        0 <= at < entries.len(),
        entries[at].0 == key,
        forall|i: int| 0 <= i < at ==> (#[trigger] entries[i]).0 != key,
    ensures
        key_index(entries, key) == at,
{
    lemma_first_from(entries, key, at, 0);
}

/// The lookup from `from` finds the first entry with the key.
proof fn lemma_first_from(entries: Seq<(Seq<char>, Tree)>, key: Seq<char>, at: int, from: int)
    requires
        0 <= from <= at < entries.len(),
        entries[at].0 == key,
        forall|i: int| from <= i < at ==> (#[trigger] entries[i]).0 != key,
    ensures
        crate::nbt::key_index_from(entries, key, from) == at,
    decreases at - from,
{
    if from < at {
        assert(entries[from].0 != key);
        lemma_first_from(entries, key, at, from + 1);
    }
}

/// Two repairs under two different keys, each of which changes nothing when it is applied
/// again, change nothing when both are applied again.
pub proof fn lemma_two_applied_again(
    entries: Seq<(Seq<char>, Tree)>,
    first_key: Seq<char>,
    first: spec_fn(Tree) -> (Tree, nat),
    second_key: Seq<char>,
    second: spec_fn(Tree) -> (Tree, nat),
)
    requires
        first_key != second_key,
        forall|value: Tree|
            value_at(entries, first_key) == Some(value) ==> first(#[trigger] first(value).0) == (
                first(value).0,
                0nat,
            ),
        forall|value: Tree|
            value_at(entries, second_key) == Some(value) ==> second(
                #[trigger] second(value).0,
            ) == (second(value).0, 0nat),
    ensures
        ({
            let once = applied_at(
                applied_at(entries, first_key, first).0,
                second_key,
                second,
            ).0;
            &&& applied_at(once, first_key, first) == (once, 0nat)
            &&& applied_at(once, second_key, second) == (once, 0nat)
        }),
{
    let middle = applied_at(entries, first_key, first).0;
    let once = applied_at(middle, second_key, second).0;
    lemma_applied_at(entries, first_key, first, first_key);
    lemma_applied_at(entries, first_key, first, second_key);
    lemma_applied_at(middle, second_key, second, first_key);
    lemma_applied_at(middle, second_key, second, second_key);
    lemma_key_index_bounds(once, first_key, 0);
    lemma_key_index_bounds(once, second_key, 0);
    match value_at(entries, first_key) {
        Some(value) => {
            assert(value_at(once, first_key) == Some(first(value).0));
            assert(with_value(once, first_key, first(value).0) =~= once);
        },
        None => {},
    }
    match value_at(entries, second_key) {
        Some(value) => {
            assert(value_at(once, second_key) == Some(second(value).0));
            assert(with_value(once, second_key, second(value).0) =~= once);
        },
        None => {},
    }
}

/// A repaired component `minecraft:custom_data` is not repaired again.
pub proof fn lemma_custom_data_again(t: Tree)
    requires
        well_keyed(t),
    ensures
        custom_data_outcome(custom_data_outcome(t).0) == (custom_data_outcome(t).0, 0nat),
{
    match t {
        Tree::Compound(data) => {
            let marker = "VV|Protocol1_20_3To1_20_5"@;
            let list = |v: Tree| enchantment_list_outcome(v);
            let rest = without_key(data, marker);
            lemma_without_key(data, marker, "Enchantments"@);
            let once = applied_at(rest, "Enchantments"@, list).0;
            lemma_applied_at(rest, "Enchantments"@, list, marker);
            assert forall|value: Tree| value_at(rest, "Enchantments"@) == Some(value) implies list(
                #[trigger] list(value).0,
            ) == (list(value).0, 0nat) by {
                lemma_enchantment_list_again(value);
            }
            lemma_applied_again(rest, "Enchantments"@, list);
            assert(without_key(once, marker) == once);
        },
        _ => {},
    }
}

/// The keys of the two components that hold enchantments differ, and so do the two keys
/// of an item under which enchantments stand.
proof fn lemma_item_keys_differ()
    ensures
        "minecraft:enchantments"@ != "minecraft:custom_data"@,
        "components"@ != "Enchantments"@,
{
    reveal_strlit("minecraft:enchantments");
    reveal_strlit("minecraft:custom_data");
    reveal_strlit("components");
    reveal_strlit("Enchantments");
    assert("minecraft:enchantments"@.len() == 22 && "minecraft:custom_data"@.len() == 21);
    assert("components"@.len() == 10 && "Enchantments"@.len() == 12);
}

/// Repaired components are not repaired again.
pub proof fn lemma_components_again(t: Tree)
    requires
        well_keyed(t),
    ensures
        components_outcome(components_outcome(t).0) == (components_outcome(t).0, 0nat),
{
    match t {
        Tree::Compound(components) => {
            let first = |v: Tree| enchantments_component_outcome(v);
            let second = |v: Tree| custom_data_outcome(v);
            lemma_item_keys_differ();
            assert forall|value: Tree|
                value_at(components, "minecraft:enchantments"@) == Some(value) implies first(
                #[trigger] first(value).0,
            ) == (first(value).0, 0nat) by {
                lemma_enchantments_component_again(value);
            }
            assert forall|value: Tree|
                value_at(components, "minecraft:custom_data"@) == Some(value) implies second(
                #[trigger] second(value).0,
            ) == (second(value).0, 0nat) by {
                lemma_well_keyed_value(components, "minecraft:custom_data"@);
                lemma_custom_data_again(value);
            }
            lemma_two_applied_again(
                components,
                "minecraft:enchantments"@,
                first,
                "minecraft:custom_data"@,
                second,
            );
        },
        _ => {},
    }
}

/// A repaired item is not repaired again.
pub proof fn lemma_item_again(t: Tree)
    requires
        well_keyed(t),
    ensures
        item_outcome(item_outcome(t).0) == (item_outcome(t).0, 0nat),
{
    match t {
        Tree::Compound(item) => {
            let first = |v: Tree| components_outcome(v);
            let second = |v: Tree| enchantment_list_outcome(v);
            lemma_item_keys_differ();
            assert forall|value: Tree| value_at(item, "components"@) == Some(value) implies first(
                #[trigger] first(value).0,
            ) == (first(value).0, 0nat) by {
                lemma_well_keyed_value(item, "components"@);
                lemma_components_again(value);
            }
            assert forall|value: Tree|
                value_at(item, "Enchantments"@) == Some(value) implies second(
                #[trigger] second(value).0,
            ) == (second(value).0, 0nat) by {
                lemma_enchantment_list_again(value);
            }
            lemma_two_applied_again(item, "components"@, first, "Enchantments"@, second);
        },
        _ => {},
    }
}

/// The repair of an item neither gives it custom data nor takes it away.
pub proof fn lemma_item_keeps_custom_data(t: Tree)
    ensures
        has_custom_data(item_outcome(t).0) == has_custom_data(t),
{
    match t {
        Tree::Compound(item) => {
            let first = |v: Tree| components_outcome(v);
            let second = |v: Tree| enchantment_list_outcome(v);
            lemma_item_keys_differ();
            let middle = applied_at(item, "components"@, first).0;
            lemma_applied_at(item, "components"@, first, "components"@);
            lemma_applied_at(middle, "Enchantments"@, second, "components"@);
            match value_at(item, "components"@) {
                Some(Tree::Compound(components)) => {
                    let a = |v: Tree| enchantments_component_outcome(v);
                    let b = |v: Tree| custom_data_outcome(v);
                    let half = applied_at(components, "minecraft:enchantments"@, a).0;
                    lemma_applied_at(
                        components,
                        "minecraft:enchantments"@,
                        a,
                        "minecraft:custom_data"@,
                    );
                    lemma_applied_at(
                        half,
                        "minecraft:custom_data"@,
                        b,
                        "minecraft:custom_data"@,
                    );
                },
                _ => {},
            }
        },
        _ => {},
    }
}

/// The six equipment slots have six different names.
pub proof fn lemma_slots_differ()
    ensures
        equipment_slots().len() == 6,
        forall|a: int, b: int|
            0 <= a < b < 6 ==> #[trigger] equipment_slots()[a] != #[trigger] equipment_slots()[b],
{
    reveal_strlit("head");
    reveal_strlit("chest");
    reveal_strlit("legs");
    reveal_strlit("feet");
    reveal_strlit("mainhand");
    reveal_strlit("offhand");
    let slots = equipment_slots();
    assert(slots[0].len() == 4 && slots[1].len() == 5 && slots[2].len() == 4 && slots[3].len()
        == 4 && slots[4].len() == 8 && slots[5].len() == 7);
    assert(slots[0][0] == 'h' && slots[2][0] == 'l' && slots[3][0] == 'f');
}

/// Whether one of the first `m` equipment slots is found at index `i` of the entries.
pub open spec fn slot_found_at(entries: Seq<(Seq<char>, Tree)>, m: int, i: int) -> bool {
    exists|t: int| 0 <= t < m && #[trigger] key_index(entries, equipment_slots()[t]) == i
}

/// After the repair of the first `m` slots, an entry holds its repaired item where one of
/// those slots is found there, and what it held before where none is. The keys stay.
pub proof fn lemma_slots_entry(entries: Seq<(Seq<char>, Tree)>, m: int, i: int)
    requires
        0 <= m <= 6,
        0 <= i < entries.len(),
    ensures
        slots_outcome(entries, m).0.len() == entries.len(),
        slots_outcome(entries, m).0[i].0 == entries[i].0,
        slots_outcome(entries, m).0[i].1 == if slot_found_at(entries, m, i) {
            item_outcome(entries[i].1).0
        } else {
            entries[i].1
        },
    decreases m,
{
    if m > 0 {
        let before = slots_outcome(entries, m - 1).0;
        let slot = equipment_slots()[m - 1];
        let repair = |v: Tree| item_outcome(v);
        lemma_slots_differ();
        lemma_slots_entry(entries, m - 1, i);
        assert forall|k: int| 0 <= k < entries.len() implies (#[trigger] before[k]).0
            == entries[k].0 by {
            lemma_slots_entry(entries, m - 1, k);
        }
        lemma_same_keys(before, entries, slot, 0);
        lemma_key_index_bounds(entries, slot, 0);
        lemma_applied_at(before, slot, repair, slot);
        let at = key_index(entries, slot);
        if at == i {
            assert(slot_found_at(entries, m, i));
            if slot_found_at(entries, m - 1, i) {
                let t = choose|t: int|
                    0 <= t < m - 1 && #[trigger] key_index(entries, equipment_slots()[t]) == i;
                lemma_key_index_bounds(entries, equipment_slots()[t], 0);
                assert(equipment_slots()[t] != equipment_slots()[m - 1]);
                assert(false);
            }
        } else {
            if slot_found_at(entries, m, i) {
                let t = choose|t: int|
                    0 <= t < m && #[trigger] key_index(entries, equipment_slots()[t]) == i;
                assert(t < m - 1);
                assert(slot_found_at(entries, m - 1, i));
            }
        }
    }
}

/// How many enchantments the repair of the first `m` slots raises in entries whose items
/// in those slots are repaired already: none, and it leaves the entries as they are.
proof fn lemma_slots_again(entries: Seq<(Seq<char>, Tree)>, m: int)
    requires
        0 <= m <= 6,
        well_keyed(Tree::Compound(entries)),
    ensures
        slots_outcome(slots_outcome(entries, 6).0, m) == (slots_outcome(entries, 6).0, 0nat),
    decreases m,
{
    if m > 0 {
        lemma_slots_again(entries, m - 1);
        let once = slots_outcome(entries, 6).0;
        let slot = equipment_slots()[m - 1];
        let repair = |v: Tree| item_outcome(v);
        assert forall|k: int| 0 <= k < entries.len() implies (#[trigger] once[k]).0
            == entries[k].0 by {
            lemma_slots_entry(entries, 6, k);
        }
        lemma_slots_entry_len(entries);
        lemma_same_keys(once, entries, slot, 0);
        lemma_key_index_bounds(entries, slot, 0);
        if has_key(entries, slot) {
            let at = key_index(entries, slot);
            lemma_slots_entry(entries, 6, at);
            assert(slot_found_at(entries, 6, at));
            assert(well_keyed(entries[at].1));
            lemma_item_again(entries[at].1);
            assert(with_value(once, slot, once[at].1) =~= once);
        }
    }
}

/// The repair of slots keeps the number of entries.
proof fn lemma_slots_entry_len(entries: Seq<(Seq<char>, Tree)>)
    ensures
        slots_outcome(entries, 6).0.len() == entries.len(),
    decreases 6int,
{
    lemma_slots_len(entries, 6);
}

/// The repair of slots keeps the number of entries.
proof fn lemma_slots_len(entries: Seq<(Seq<char>, Tree)>, m: int)
    requires
        0 <= m <= 6,
    ensures
        slots_outcome(entries, m).0.len() == entries.len(),
    decreases m,
{
    if m > 0 {
        lemma_slots_len(entries, m - 1);
        lemma_applied_at(
            slots_outcome(entries, m - 1).0,
            equipment_slots()[m - 1],
            |v: Tree| item_outcome(v),
            equipment_slots()[m - 1],
        );
    }
}

/// No enchantment is left to raise in a repaired list of items.
proof fn lemma_item_list_again(list: Seq<Tree>, n: int)
    requires
        0 <= n <= list.len(),
        well_keyed(Tree::List(list)),
    ensures
        item_list_fixes(Seq::new(list.len(), |i: int| item_outcome(list[i]).0), n) == 0,
    decreases n,
{
    if n > 0 {
        lemma_item_list_again(list, n - 1);
        lemma_well_keyed_item(list, n - 1);
        lemma_item_again(list[n - 1]);
    }
}

/// Repaired items are not repaired again.
pub proof fn lemma_items_again(t: Tree)
    requires
        well_keyed(t),
    ensures
        items_outcome(items_outcome(t).0) == (items_outcome(t).0, 0nat),
{
    match t {
        Tree::Compound(entries) => {
            lemma_slots_again(entries, 6);
        },
        Tree::List(list) => {
            let once = Seq::new(list.len(), |i: int| item_outcome(list[i]).0);
            lemma_item_list_again(list, list.len() as int);
            assert forall|i: int| 0 <= i < list.len() implies item_outcome(#[trigger] once[i]).0
                == once[i] by {
                assert(well_keyed(list[i]));
                lemma_item_again(list[i]);
            }
            assert(Seq::new(once.len(), |i: int| item_outcome(once[i]).0) =~= once);
        },
        _ => {},
    }
}

/// The repair of the items that an entity wears or holds neither gives any of them custom
/// data nor takes it away.
pub proof fn lemma_items_keep_custom_data(t: Tree)
    ensures
        t is Compound == items_outcome(t).0 is Compound,
        t is List == items_outcome(t).0 is List,
        t matches Tree::Compound(entries) ==> any_value_has_custom_data(
            items_outcome(t).0->Compound_0,
        ) == any_value_has_custom_data(entries),
        t matches Tree::List(list) ==> any_item_has_custom_data(items_outcome(t).0->List_0)
            == any_item_has_custom_data(list),
{
    match t {
        Tree::Compound(entries) => {
            let after = slots_outcome(entries, 6).0;
            lemma_slots_len(entries, 6);
            assert forall|i: int| 0 <= i < entries.len() implies has_custom_data(
                #[trigger] after[i].1,
            ) == has_custom_data(entries[i].1) by {
                lemma_slots_entry(entries, 6, i);
                lemma_item_keeps_custom_data(entries[i].1);
            }
            if any_value_has_custom_data(entries) {
                let i = choose|i: int|
                    0 <= i < entries.len() && has_custom_data(#[trigger] entries[i].1);
                assert(has_custom_data(after[i].1));
            }
            if any_value_has_custom_data(after) {
                let i = choose|i: int|
                    0 <= i < after.len() && has_custom_data(#[trigger] after[i].1);
                assert(has_custom_data(entries[i].1));
            }
        },
        Tree::List(list) => {
            let after = Seq::new(list.len(), |i: int| item_outcome(list[i]).0);
            assert forall|i: int| 0 <= i < list.len() implies has_custom_data(#[trigger] after[i])
                == has_custom_data(list[i]) by {
                lemma_item_keeps_custom_data(list[i]);
            }
            if any_item_has_custom_data(list) {
                let i = choose|i: int| 0 <= i < list.len() && has_custom_data(#[trigger] list[i]);
                assert(has_custom_data(after[i]));
            }
            if any_item_has_custom_data(after) {
                let i = choose|i: int|
                    0 <= i < after.len() && has_custom_data(#[trigger] after[i]);
                assert(has_custom_data(list[i]));
            }
        },
        _ => {},
    }
}

} // verus!
