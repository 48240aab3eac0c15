//! Repair of enchantment levels. A level of zero is corrupt and is raised to
//! one, wherever an item keeps its enchantments: in the component
//! `minecraft:enchantments`, in the list `Enchantments` inside the component
//! `minecraft:custom_data`, or in the list `Enchantments` of the item itself.

use crate::nbt::{
    entry_trees, find_entry, has_key, key_index, lemma_key_index_bounds, lemma_tree_of_parts,
    list_trees, Tree, Value,
};
use crate::stats::{add_clipped, clip, FixStats, Tally};
use vstd::prelude::*;

verus! {

/// The value that the first entry with the key `key` has.
pub open spec fn value_at(entries: Seq<(Seq<char>, Tree)>, key: Seq<char>) -> Option<Tree> {
    if has_key(entries, key) {
        Some(entries[key_index(entries, key)].1)
    } else {
        None
    }
}

/// The entries with `value` in place of the value of the first entry with the key `key`.
pub open spec fn with_value(entries: Seq<(Seq<char>, Tree)>, key: Seq<char>, value: Tree) -> Seq<
    (Seq<char>, Tree),
> {
    if has_key(entries, key) {
        entries.update(key_index(entries, key), (key, value))
    } else {
        entries
    }
}

/// Whether `t` is a level of zero: an int, a short or a byte.
pub open spec fn is_zero_level(t: Tree) -> bool {
    t == Tree::Int(0) || t == Tree::Short(0) || t == Tree::Byte(0)
}

/// `t` with a level of zero raised to one.
pub open spec fn raised_level(t: Tree) -> Tree {
    match t {
        Tree::Int(0) => Tree::Int(1),
        Tree::Short(0) => Tree::Short(1),
        Tree::Byte(0) => Tree::Byte(1),
        _ => t,
    }
}

/// The entries of a map of levels, each level of zero raised to one.
pub open spec fn raised_levels(entries: Seq<(Seq<char>, Tree)>) -> Seq<(Seq<char>, Tree)> {
    Seq::new(entries.len(), |i: int| (entries[i].0, raised_level(entries[i].1)))
}

/// How many of the first `n` entries hold a level of zero.
pub open spec fn zero_levels(entries: Seq<(Seq<char>, Tree)>, n: int) -> nat
    decreases n,
{
    if n <= 0 {
        0
    } else {
        zero_levels(entries, n - 1) + if is_zero_level(entries[n - 1].1) {
            1nat
        } else {
            0nat
        }
    }
}

/// Raises a level of zero to one.
fn raise_level(level: &mut Value) -> (raised: bool)
    ensures
        final(level)@ == raised_level(old(level)@),
        raised == is_zero_level(old(level)@),
{
    match level {
        Value::Int(v) => {
            if *v == 0 {
                *v = 1;
                return true;
            }
        },
        Value::Short(v) => {
            if *v == 0 {
                *v = 1;
                return true;
            }
        },
        Value::Byte(v) => {
            if *v == 0 {
                *v = 1;
                return true;
            }
        },
        _ => {},
    }
    false
}

/// Raises every level of zero in a map from enchantment to level, and counts them. Only
/// ints, shorts and bytes are levels; other values stay as they are.
pub fn fix_enchantment_levels(enchant_map: &mut Vec<(String, Value)>) -> (fixed_count: usize)
    ensures
        entry_trees(final(enchant_map)@) == raised_levels(entry_trees(old(enchant_map)@)),
        fixed_count == clip(
            zero_levels(entry_trees(old(enchant_map)@), old(enchant_map)@.len() as int) as int,
        ),
{
    let ghost before = entry_trees(enchant_map@);
    let mut fixed_count: usize = 0;
    let n: usize = enchant_map.len();
    let mut i: usize = 0;
    while i < n
        invariant
            i <= n,
            n == before.len(),
            enchant_map@.len() == n,
            before == entry_trees(old(enchant_map)@),
            fixed_count == clip(zero_levels(before, i as int) as int),
            forall|k: int|
                0 <= k < i ==> #[trigger] entry_trees(enchant_map@)[k] == raised_levels(before)[k],
            forall|k: int| i <= k < n ==> #[trigger] entry_trees(enchant_map@)[k] == before[k],
        decreases n - i,
    {
        let ghost current = entry_trees(enchant_map@);
        let ghost items = enchant_map@;
        let raised: bool = raise_level(&mut enchant_map[i].1);
        assert(enchant_map@.len() == n);
        assert(enchant_map@[i as int].0 == items[i as int].0);
        assert(enchant_map@[i as int].1@ == raised_level(items[i as int].1@));
        assert forall|k: int| 0 <= k < n && k != i implies enchant_map@[k] == items[k] by {}
        assert(current[i as int] == before[i as int]);
        assert(entry_trees(enchant_map@)[i as int] == raised_levels(before)[i as int]);
        assert forall|k: int| 0 <= k < n && k != i implies #[trigger] entry_trees(
            enchant_map@,
        )[k] == current[k] by {
            assert(enchant_map@[k] == items[k]);
        }
        assert(is_zero_level(before[i as int].1) == raised);
        if raised {
            assert(clip(zero_levels(before, i as int) as int + 1) == clip(
                zero_levels(before, i + 1) as int,
            ));
            fixed_count = add_clipped(fixed_count, 1);
        }
        i += 1;
    }
    assert(entry_trees(enchant_map@) =~= raised_levels(before));
    fixed_count
}

/// The entries without the first entry with the key `key`.
pub open spec fn without_key(entries: Seq<(Seq<char>, Tree)>, key: Seq<char>) -> Seq<
    (Seq<char>, Tree),
> {
    if has_key(entries, key) {
        entries.remove(key_index(entries, key))
    } else {
        entries
    }
}

/// The entries with `outcome` applied to the value of the first entry with the key `key`,
/// and the count that `outcome` gives; the entries as they are, and zero, where no entry
/// has the key.
pub open spec fn applied_at(
    entries: Seq<(Seq<char>, Tree)>,
    key: Seq<char>,
    outcome: spec_fn(Tree) -> (Tree, nat),
) -> (Seq<(Seq<char>, Tree)>, nat) {
    match value_at(entries, key) {
        Some(value) => (with_value(entries, key, outcome(value).0), outcome(value).1),
        None => (entries, 0),
    }
}

/// What changing the value of one entry of a compound does to its tree.
pub proof fn lemma_entry_replaced(
    before: Seq<(String, Value)>,
    after: Seq<(String, Value)>,
    index: int,
    key: Seq<char>,
)
    requires
        0 <= index < before.len(),
        after.len() == before.len(),
        index == key_index(entry_trees(before), key),
        after[index].0 == before[index].0,
        forall|k: int| 0 <= k < before.len() && k != index ==> after[k] == before[k],
    ensures
        value_at(entry_trees(before), key) == Some(before[index].1@),
        entry_trees(after) == with_value(entry_trees(before), key, after[index].1@),
{
    lemma_key_index_bounds(entry_trees(before), key, 0);
    assert(entry_trees(after) =~= with_value(entry_trees(before), key, after[index].1@));
}

/// Whether `t` is an enchantment whose `lvl` is the short zero.
pub open spec fn needs_lvl_fix(t: Tree) -> bool {
    t matches Tree::Compound(entries) && value_at(entries, "lvl"@) == Some(Tree::Short(0))
}

/// `t` with a `lvl` of the short zero raised to one.
pub open spec fn lvl_fixed(t: Tree) -> Tree {
    if needs_lvl_fix(t) {
        Tree::Compound(with_value(t->Compound_0, "lvl"@, Tree::Short(1)))
    } else {
        t
    }
}

/// How many of the first `n` enchantments of a list have a `lvl` of the short zero.
pub open spec fn lvl_fixes(list: Seq<Tree>, n: int) -> nat
    decreases n,
{
    if n <= 0 {
        0
    } else {
        lvl_fixes(list, n - 1) + if needs_lvl_fix(list[n - 1]) {
            1nat
        } else {
            0nat
        }
    }
}

/// What the repair makes of the value of an `Enchantments` entry: in a list, every
/// enchantment with a `lvl` of the short zero has it raised to one.
pub open spec fn enchantment_list_outcome(t: Tree) -> (Tree, nat) {
    match t {
        Tree::List(list) => (
            Tree::List(Seq::new(list.len(), |i: int| lvl_fixed(list[i]))),
            lvl_fixes(list, list.len() as int),
        ),
        _ => (t, 0),
    }
}

/// What the repair makes of the component `minecraft:enchantments`: the levels are
/// raised in its entry `levels` where that is a compound, and in the component itself
/// where it is not.
pub open spec fn enchantments_component_outcome(t: Tree) -> (Tree, nat) {
    match t {
        Tree::Compound(map) => match value_at(map, "levels"@) {
            Some(Tree::Compound(levels)) => (
                Tree::Compound(with_value(map, "levels"@, Tree::Compound(raised_levels(levels)))),
                zero_levels(levels, levels.len() as int),
            ),
            _ => (Tree::Compound(raised_levels(map)), zero_levels(map, map.len() as int)),
        },
        _ => (t, 0),
    }
}

/// What the repair makes of the component `minecraft:custom_data`: the entry
/// `VV|Protocol1_20_3To1_20_5` is taken out, which counts as one repair, and the list
/// `Enchantments` is repaired.
pub open spec fn custom_data_outcome(t: Tree) -> (Tree, nat) {
    match t {
        Tree::Compound(data) => {
            let marker = "VV|Protocol1_20_3To1_20_5"@;
            let removed: nat = if has_key(data, marker) {
                1
            } else {
                0
            };
            let rest = applied_at(
                without_key(data, marker),
                "Enchantments"@,
                |v: Tree| enchantment_list_outcome(v),
            );
            (Tree::Compound(rest.0), removed + rest.1)
        },
        _ => (t, 0),
    }
}

/// What the repair makes of the entry `components` of an item.
pub open spec fn components_outcome(t: Tree) -> (Tree, nat) {
    match t {
        Tree::Compound(components) => {
            let first = applied_at(
                components,
                "minecraft:enchantments"@,
                |v: Tree| enchantments_component_outcome(v),
            );
            let second = applied_at(
                first.0,
                "minecraft:custom_data"@,
                |v: Tree| custom_data_outcome(v),
            );
            (Tree::Compound(second.0), first.1 + second.1)
        },
        _ => (t, 0),
    }
}

/// What the repair makes of an item, and how many enchantments it repairs there. An item
/// that is no compound stays as it is.
pub open spec fn item_outcome(t: Tree) -> (Tree, nat) {
    match t {
        Tree::Compound(item) => {
            let first = applied_at(item, "components"@, |v: Tree| components_outcome(v));
            let second = applied_at(
                first.0,
                "Enchantments"@,
                |v: Tree| enchantment_list_outcome(v),
            );
            (Tree::Compound(second.0), first.1 + second.1)
        },
        _ => (t, 0),
    }
}

/// Raises the `lvl` of an enchantment from the short zero to one.
fn fix_lvl(enchant: &mut Value) -> (fixed: bool)
    ensures
        final(enchant)@ == lvl_fixed(old(enchant)@),
        fixed == needs_lvl_fix(old(enchant)@),
{
    proof {
        lemma_tree_of_parts(*enchant);
    }
    match enchant {
        Value::Compound(entries) => {
            let ghost before = entries@;
            match find_entry(entries, "lvl") {
                Some(j) => {
                    proof {
                        lemma_entry_replaced(before, before, j as int, "lvl"@);
                    }
                    let zero: bool = match &entries[j].1 {
                        Value::Short(lvl) => *lvl == 0,
                        _ => false,
                    };
                    if zero {
                        entries[j].1 = Value::Short(1);
                        proof {
                            lemma_entry_replaced(before, entries@, j as int, "lvl"@);
                            lemma_tree_of_parts(Value::Compound(*entries));
                        }
                        return true;
                    }
                },
                None => {},
            }
        },
        _ => {},
    }
    false
}

/// Repairs the value of an `Enchantments` entry.
fn fix_enchantment_list(value: &mut Value) -> (fixed: usize)
    ensures
        final(value)@ == enchantment_list_outcome(old(value)@).0,
        fixed == clip(enchantment_list_outcome(old(value)@).1 as int),
{
    proof {
        lemma_tree_of_parts(*value);
    }
    let mut fixed: usize = 0;
    match value {
        Value::List(list) => {
            let ghost before = list_trees(list@);
            let n: usize = list.len();
            let mut i: usize = 0;
            while i < n
                invariant
                    i <= n,
                    n == before.len(),
                    list@.len() == n,
                    fixed == clip(lvl_fixes(before, i as int) as int),
                    forall|k: int| 0 <= k < i ==> #[trigger] list@[k]@ == lvl_fixed(before[k]),
                    forall|k: int| i <= k < n ==> #[trigger] list@[k]@ == before[k],
                decreases n - i,
            {
                let ghost items = list@;
                let changed: bool = fix_lvl(&mut list[i]);
                assert forall|k: int| 0 <= k < n && k != i implies list@[k] == items[k] by {}
                if changed {
                    assert(clip(lvl_fixes(before, i as int) as int + 1) == clip(
                        lvl_fixes(before, i + 1) as int,
                    ));
                    fixed = add_clipped(fixed, 1);
                }
                i += 1;
            }
            proof {
                lemma_tree_of_parts(Value::List(*list));
                assert(list_trees(list@) =~= Seq::new(
                    before.len(),
                    |i: int| lvl_fixed(before[i]),
                ));
            }
        },
        _ => {},
    }
    fixed
}

/// Whether `value` is a compound.
pub fn is_compound(value: &Value) -> (compound: bool)
    ensures
        compound == (value@ is Compound),
        compound == (value is Compound),
{
    match value {
        Value::Compound(_) => true,
        _ => false,
    }
}

/// Whether `value` is a list.
pub fn is_list(value: &Value) -> (list: bool)
    ensures
        list == (value@ is List),
        list == (value is List),
{
    match value {
        Value::List(_) => true,
        _ => false,
    }
}

/// Repairs the component `minecraft:enchantments`.
fn fix_enchantments_component(value: &mut Value) -> (fixed: usize)
    ensures
        final(value)@ == enchantments_component_outcome(old(value)@).0,
        fixed == clip(enchantments_component_outcome(old(value)@).1 as int),
{
    proof {
        lemma_tree_of_parts(*value);
    }
    match value {
        Value::Compound(map) => {
            let ghost before = map@;
            match find_entry(map, "levels") {
                Some(j) => {
                    proof {
                        lemma_tree_of_parts(before[j as int].1);
                        lemma_entry_replaced(before, before, j as int, "levels"@);
                    }
                    if is_compound(&map[j].1) {
                        let mut fixed: usize = 0;
                        match &mut map[j].1 {
                            Value::Compound(levels) => {
                                fixed = fix_enchantment_levels(levels);
                                proof {
                                    lemma_tree_of_parts(Value::Compound(*levels));
                                }
                            },
                            _ => {},
                        }
                        proof {
                            lemma_entry_replaced(before, map@, j as int, "levels"@);
                            lemma_tree_of_parts(Value::Compound(*map));
                        }
                        return fixed;
                    }
                },
                None => {},
            }
            let fixed: usize = fix_enchantment_levels(map);
            proof {
                lemma_tree_of_parts(Value::Compound(*map));
            }
            fixed
        },
        _ => 0,
    }
}

/// Repairs the component `minecraft:custom_data`.
fn fix_custom_data(value: &mut Value) -> (fixed: usize)
    ensures
        final(value)@ == custom_data_outcome(old(value)@).0,
        fixed == clip(custom_data_outcome(old(value)@).1 as int),
{
    proof {
        lemma_tree_of_parts(*value);
    }
    match value {
        Value::Compound(data) => {
            let ghost before = data@;
            let mut fixed: usize = 0;
            match find_entry(data, "VV|Protocol1_20_3To1_20_5") {
                Some(j) => {
                    data.remove(j);
                    fixed = 1;
                    assert(entry_trees(data@) =~= entry_trees(before).remove(j as int));
                },
                None => {},
            }
            let ghost middle = data@;
            assert(entry_trees(middle) == without_key(
                entry_trees(before),
                "VV|Protocol1_20_3To1_20_5"@,
            ));
            match find_entry(data, "Enchantments") {
                Some(j) => {
                    let more: usize = fix_enchantment_list(&mut data[j].1);
                    proof {
                        lemma_entry_replaced(middle, data@, j as int, "Enchantments"@);
                    }
                    fixed = add_clipped(fixed, more);
                },
                None => {},
            }
            proof {
                lemma_tree_of_parts(Value::Compound(*data));
            }
            fixed
        },
        _ => 0,
    }
}

/// Repairs the entry `components` of an item.
fn fix_components(value: &mut Value) -> (fixed: usize)
    ensures
        final(value)@ == components_outcome(old(value)@).0,
        fixed == clip(components_outcome(old(value)@).1 as int),
{
    proof {
        lemma_tree_of_parts(*value);
    }
    match value {
        Value::Compound(components) => {
            let ghost before = components@;
            let mut fixed: usize = 0;
            match find_entry(components, "minecraft:enchantments") {
                Some(j) => {
                    fixed = fix_enchantments_component(&mut components[j].1);
                    proof {
                        lemma_entry_replaced(
                            before,
                            components@,
                            j as int,
                            "minecraft:enchantments"@,
                        );
                    }
                },
                None => {},
            }
            let ghost middle = components@;
            match find_entry(components, "minecraft:custom_data") {
                Some(j) => {
                    let more: usize = fix_custom_data(&mut components[j].1);
                    proof {
                        lemma_entry_replaced(
                            middle,
                            components@,
                            j as int,
                            "minecraft:custom_data"@,
                        );
                    }
                    fixed = add_clipped(fixed, more);
                },
                None => {},
            }
            proof {
                lemma_tree_of_parts(Value::Compound(*components));
            }
            fixed
        },
        _ => 0,
    }
}

/// Repairs the enchantments of one item: those in its components, and those in its own
/// list `Enchantments`. Counts every level that was raised and every entry that was
/// taken out.
pub fn fix_item_enchantments(item: &mut Value) -> (stats: FixStats)
    ensures
        final(item)@ == item_outcome(old(item)@).0,
        stats.counts(
            Tally { enchantments_fixed: item_outcome(old(item)@).1, ..Tally::zero() },
        ),
{
    let mut stats = FixStats::new();
    proof {
        lemma_tree_of_parts(*item);
    }
    match item {
        Value::Compound(item_data) => {
            let ghost before = item_data@;
            let mut fixed: usize = 0;
            match find_entry(item_data, "components") {
                Some(j) => {
                    fixed = fix_components(&mut item_data[j].1);
                    proof {
                        lemma_entry_replaced(before, item_data@, j as int, "components"@);
                    }
                },
                None => {},
            }
            let ghost middle = item_data@;
            match find_entry(item_data, "Enchantments") {
                Some(j) => {
                    let more: usize = fix_enchantment_list(&mut item_data[j].1);
                    proof {
                        lemma_entry_replaced(middle, item_data@, j as int, "Enchantments"@);
                    }
                    fixed = add_clipped(fixed, more);
                },
                None => {},
            }
            proof {
                lemma_tree_of_parts(Value::Compound(*item_data));
            }
            stats.enchantments_fixed = fixed;
        },
        _ => {},
    }
    stats
}

/// The slots of an `equipment` compound whose items are repaired, in the order of repair.
pub open spec fn equipment_slots() -> Seq<Seq<char>> {
    seq!["head"@, "chest"@, "legs"@, "feet"@, "mainhand"@, "offhand"@]
}

/// What the repair makes of the entries of an `equipment` compound after the first `n`
/// slots: the item in each of those slots is repaired.
pub open spec fn slots_outcome(entries: Seq<(Seq<char>, Tree)>, n: int) -> (
    Seq<(Seq<char>, Tree)>,
    nat,
)
    decreases n,
{
    if n <= 0 {
        (entries, 0)
    } else {
        let before = slots_outcome(entries, n - 1);
        let slot = applied_at(before.0, equipment_slots()[n - 1], |v: Tree| item_outcome(v));
        (slot.0, before.1 + slot.1)
    }
}

/// How many enchantments the repair raises in the first `n` items of a list.
pub open spec fn item_list_fixes(list: Seq<Tree>, n: int) -> nat
    decreases n,
{
    if n <= 0 {
        0
    } else {
        item_list_fixes(list, n - 1) + item_outcome(list[n - 1]).1
    }
}

/// What the repair makes of the items that an entity wears or holds: in a compound, the
/// items in the six equipment slots are repaired; in a list, every item is.
pub open spec fn items_outcome(t: Tree) -> (Tree, nat) {
    match t {
        Tree::Compound(entries) => (
            Tree::Compound(slots_outcome(entries, 6).0),
            slots_outcome(entries, 6).1,
        ),
        Tree::List(list) => (
            Tree::List(Seq::new(list.len(), |i: int| item_outcome(list[i]).0)),
            item_list_fixes(list, list.len() as int),
        ),
        _ => (t, 0),
    }
}

/// Repairs the item in one slot of an `equipment` compound.
fn fix_slot(entries: &mut Vec<(String, Value)>, slot: &str) -> (fixed: usize)
    ensures
        entry_trees(final(entries)@) == applied_at(
            entry_trees(old(entries)@),
            slot@,
            |v: Tree| item_outcome(v),
        ).0,
        fixed == clip(
            applied_at(entry_trees(old(entries)@), slot@, |v: Tree| item_outcome(v)).1 as int,
        ),
{
    let ghost before = entries@;
    match find_entry(entries, slot) {
        Some(j) => {
            let stats = fix_item_enchantments(&mut entries[j].1);
            proof {
                lemma_entry_replaced(before, entries@, j as int, slot@);
            }
            stats.enchantments_fixed
        },
        None => 0,
    }
}

/// Repairs the enchantments of the items that an entity wears or holds: the value of its
/// `equipment`, `ArmorItems` or `HandItems` entry.
pub fn fix_items_enchantments(items: &mut Value) -> (stats: FixStats)
    ensures
        final(items)@ == items_outcome(old(items)@).0,
        stats.counts(
            Tally { enchantments_fixed: items_outcome(old(items)@).1, ..Tally::zero() },
        ),
{
    let mut stats = FixStats::new();
    proof {
        lemma_tree_of_parts(*items);
    }
    match items {
        Value::Compound(eq_data) => {
            let ghost before = entry_trees(eq_data@);
            let slots: [&str; 6] = ["head", "chest", "legs", "feet", "mainhand", "offhand"];
            let mut fixed: usize = 0;
            let mut i: usize = 0;
            while i < 6
                invariant
                    i <= 6,
                    forall|k: int| 0 <= k < 6 ==> #[trigger] slots@[k]@ == equipment_slots()[k],
                    entry_trees(eq_data@) == slots_outcome(before, i as int).0,
                    fixed == clip(slots_outcome(before, i as int).1 as int),
                decreases 6 - i,
            {
                let ghost slot = applied_at(
                    entry_trees(eq_data@),
                    equipment_slots()[i as int],
                    |v: Tree| item_outcome(v),
                );
                assert(slots@[i as int]@ == equipment_slots()[i as int]);
                let more: usize = fix_slot(eq_data, slots[i]);
                assert(clip(slots_outcome(before, i as int).1 as int + slot.1 as int) == clip(
                    slots_outcome(before, i + 1).1 as int,
                ));
                fixed = add_clipped(fixed, more);
                i += 1;
            }
            proof {
                lemma_tree_of_parts(Value::Compound(*eq_data));
            }
            stats.enchantments_fixed = fixed;
        },
        Value::List(items_list) => {
            let ghost before = list_trees(items_list@);
            let n: usize = items_list.len();
            let mut fixed: usize = 0;
            let mut i: usize = 0;
            while i < n
                invariant
                    i <= n,
                    n == before.len(),
                    items_list@.len() == n,
                    fixed == clip(item_list_fixes(before, i as int) as int),
                    forall|k: int|
                        0 <= k < i ==> #[trigger] items_list@[k]@ == item_outcome(before[k]).0,
                    forall|k: int| i <= k < n ==> #[trigger] items_list@[k]@ == before[k],
                decreases n - i,
            {
                let ghost current = items_list@;
                let item_stats = fix_item_enchantments(&mut items_list[i]);
                assert forall|k: int| 0 <= k < n && k != i implies items_list@[k]
                    == current[k] by {}
                assert(clip(
                    item_list_fixes(before, i as int) as int + item_outcome(
                        before[i as int],
                    ).1 as int,
                ) == clip(item_list_fixes(before, i + 1) as int));
                fixed = add_clipped(fixed, item_stats.enchantments_fixed);
                i += 1;
            }
            proof {
                lemma_tree_of_parts(Value::List(*items_list));
                assert(list_trees(items_list@) =~= Seq::new(
                    before.len(),
                    |i: int| item_outcome(before[i]).0,
                ));
            }
            stats.enchantments_fixed = fixed;
        },
        _ => {},
    }
    stats
}

} // verus!
