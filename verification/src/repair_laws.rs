//! What holds of the repair, whatever the tree.

use crate::double::{double_ge, double_lt, lemma_double_of_int_compares};
use crate::enchant::{
    applied_at, is_zero_level, lvl_fixed, needs_lvl_fix, raised_levels, value_at, with_value,
};
use crate::entity::{axis_outside, carries_custom_data, position_outcome};
use crate::entity_laws::lemma_entities_keep_custom_data;
use crate::nbt::{has_key, key_index, lemma_key_index_bounds, lemma_same_keys, Tree};
use crate::repair::{entity_list_outcome, kept_entities};
use vstd::prelude::*;

verus! {

/// In a map of levels, the repair raises exactly the levels of zero to one, each in its
/// own width, and leaves every key and every other value as it was.
pub proof fn lemma_only_zero_levels_are_raised(entries: Seq<(Seq<char>, Tree)>, i: int)
    requires
        0 <= i < entries.len(),
    ensures
        raised_levels(entries).len() == entries.len(),
        raised_levels(entries)[i].0 == entries[i].0,
        entries[i].1 == Tree::Int(0) ==> raised_levels(entries)[i].1 == Tree::Int(1),
        entries[i].1 == Tree::Short(0) ==> raised_levels(entries)[i].1 == Tree::Short(1),
        entries[i].1 == Tree::Byte(0) ==> raised_levels(entries)[i].1 == Tree::Byte(1),
        !is_zero_level(entries[i].1) ==> raised_levels(entries)[i].1 == entries[i].1,
        !is_zero_level(raised_levels(entries)[i].1),
{
}

/// In an enchantment of a list, the repair raises a `lvl` of the short zero to one and
/// leaves everything else as it was.
pub proof fn lemma_only_zero_lvl_is_raised(enchant: Tree)
    ensures
        !needs_lvl_fix(enchant) ==> lvl_fixed(enchant) == enchant,
        needs_lvl_fix(enchant) ==> ({
            let before = enchant->Compound_0;
            let after = lvl_fixed(enchant)->Compound_0;
            let at = key_index(before, "lvl"@);
            &&& lvl_fixed(enchant) is Compound
            &&& after.len() == before.len()
            &&& 0 <= at < before.len()
            &&& after[at] == ("lvl"@, Tree::Short(1))
            &&& forall|k: int| 0 <= k < before.len() && k != at ==> after[k] == before[k]
        }),
        !needs_lvl_fix(lvl_fixed(enchant)),
{
    if needs_lvl_fix(enchant) {
        let before = enchant->Compound_0;
        lemma_key_index_bounds(before, "lvl"@, 0);
        let after = lvl_fixed(enchant)->Compound_0;
        lemma_same_keys(before, after, "lvl"@, 0);
    }
}

/// After the repair of a position, a first or third coordinate that is a double lies in
/// the chunk: at `chunk * 16` or above and below `(chunk + 1) * 16`. The second
/// coordinate and any further one are as they were.
pub proof fn lemma_position_lies_in_chunk(pos: Tree, chunk_x: int, chunk_z: int)
    requires
        -0x8000_0000 <= chunk_x < 0x8000_0000,
        -0x8000_0000 <= chunk_z < 0x8000_0000,
        pos matches Tree::List(coords) && coords.len() >= 3,
    ensures
        ({
            let before = pos->List_0;
            let after = position_outcome(pos, chunk_x, chunk_z).0->List_0;
            &&& position_outcome(pos, chunk_x, chunk_z).0 is List
            &&& after.len() == before.len()
            &&& forall|k: int| 0 <= k < before.len() && k != 0 && k != 2 ==> after[k] == before[k]
            &&& after[0] matches Tree::Double(x) ==> double_ge(x, chunk_x * 16) && double_lt(
                x,
                (chunk_x + 1) * 16,
            )
            &&& after[2] matches Tree::Double(z) ==> double_ge(z, chunk_z * 16) && double_lt(
                z,
                (chunk_z + 1) * 16,
            )
            &&& !(before[0] is Double) ==> after[0] == before[0]
            &&& !(before[2] is Double) ==> after[2] == before[2]
        }),
{
    lemma_double_of_int_compares(chunk_x * 16 + 8, chunk_x * 16);
    lemma_double_of_int_compares(chunk_x * 16 + 8, (chunk_x + 1) * 16);
    lemma_double_of_int_compares(chunk_z * 16 + 8, chunk_z * 16);
    lemma_double_of_int_compares(chunk_z * 16 + 8, (chunk_z + 1) * 16);
}

/// A position that lies in its chunk is not repaired again.
pub proof fn lemma_position_repair_is_idempotent(pos: Tree, chunk_x: int, chunk_z: int)
    requires
        -0x8000_0000 <= chunk_x < 0x8000_0000,
        -0x8000_0000 <= chunk_z < 0x8000_0000,
    ensures
        position_outcome(position_outcome(pos, chunk_x, chunk_z).0, chunk_x, chunk_z) == (
            position_outcome(pos, chunk_x, chunk_z).0,
            0nat,
        ),
{
    lemma_double_of_int_compares(chunk_x * 16 + 8, chunk_x * 16);
    lemma_double_of_int_compares(chunk_x * 16 + 8, (chunk_x + 1) * 16);
    lemma_double_of_int_compares(chunk_z * 16 + 8, chunk_z * 16);
    lemma_double_of_int_compares(chunk_z * 16 + 8, (chunk_z + 1) * 16);
    match pos {
        Tree::List(coords) => {
            if coords.len() >= 3 {
                let once = position_outcome(pos, chunk_x, chunk_z).0->List_0;
                let twice = position_outcome(Tree::List(once), chunk_x, chunk_z).0->List_0;
                assert(!axis_outside(once[0], chunk_x));
                assert(!axis_outside(once[2], chunk_z));
                assert(twice =~= once);
            }
        },
        _ => {},
    }
}

/// None of the entities that stay in a chunk carries custom data, and each of them was
/// in the list before.
pub proof fn lemma_kept_carry_no_custom_data(list: Seq<Tree>, n: int, i: int)
    requires
        0 <= n <= list.len(),
        0 <= i < kept_entities(list, n).len(),
    ensures
        !carries_custom_data(kept_entities(list, n)[i]),
        exists|k: int| 0 <= k < n && list[k] == kept_entities(list, n)[i],
    decreases n,
{
    if n > 0 {
        let before = kept_entities(list, n - 1);
        if i < before.len() {
            lemma_kept_carry_no_custom_data(list, n - 1, i);
            let k = choose|k: int| 0 <= k < n - 1 && list[k] == before[i];
            assert(0 <= k < n && list[k] == kept_entities(list, n)[i]);
        } else {
            assert(kept_entities(list, n)[i] == list[n - 1]);
        }
    }
}

/// Every entity that carries no custom data stays in the chunk.
pub proof fn lemma_sound_entities_are_kept(list: Seq<Tree>, n: int, k: int)
    requires
        0 <= k < n <= list.len(),
        !carries_custom_data(list[k]),
    ensures
        exists|i: int| 0 <= i < kept_entities(list, n).len() && kept_entities(list, n)[i] == list[k],
    decreases n,
{
    if k == n - 1 {
        let kept = kept_entities(list, n);
        assert(kept[kept.len() - 1] == list[k]);
    } else {
        lemma_sound_entities_are_kept(list, n - 1, k);
        let before = kept_entities(list, n - 1);
        let i = choose|i: int| 0 <= i < before.len() && before[i] == list[k];
        assert(kept_entities(list, n)[i] == list[k]);
    }
}

/// Putting a value under a key changes neither the keys nor what stands under any other
/// key, and the value is then found under the key.
pub proof fn lemma_with_value(
    entries: Seq<(Seq<char>, Tree)>,
    key: Seq<char>,
    value: Tree,
    other: Seq<char>,
)
    ensures
        with_value(entries, key, value).len() == entries.len(),
        forall|k: int|
            0 <= k < entries.len() ==> (#[trigger] with_value(entries, key, value)[k]).0
                == entries[k].0,
        key_index(with_value(entries, key, value), other) == key_index(entries, other),
        has_key(with_value(entries, key, value), other) == has_key(entries, other),
        has_key(entries, key) ==> value_at(with_value(entries, key, value), key) == Some(value),
        other != key ==> value_at(with_value(entries, key, value), other) == value_at(
            entries,
            other,
        ),
{
    let after = with_value(entries, key, value);
    lemma_key_index_bounds(entries, key, 0);
    lemma_key_index_bounds(entries, other, 0);
    assert forall|k: int| 0 <= k < entries.len() implies (#[trigger] after[k]).0
        == entries[k].0 by {}
    lemma_same_keys(after, entries, other, 0);
    lemma_same_keys(after, entries, key, 0);
}

/// Applying a repair under a key changes neither the keys nor what stands under any
/// other key.
pub proof fn lemma_applied_at(
    entries: Seq<(Seq<char>, Tree)>,
    key: Seq<char>,
    outcome: spec_fn(Tree) -> (Tree, nat),
    other: Seq<char>,
)
    ensures
        applied_at(entries, key, outcome).0.len() == entries.len(),
        forall|k: int|
            0 <= k < entries.len() ==> (#[trigger] applied_at(entries, key, outcome).0[k]).0
                == entries[k].0,
        key_index(applied_at(entries, key, outcome).0, other) == key_index(entries, other),
        has_key(applied_at(entries, key, outcome).0, other) == has_key(entries, other),
        value_at(applied_at(entries, key, outcome).0, key) == match value_at(entries, key) {
            Some(value) => Some(outcome(value).0),
            None => None,
        },
        other != key ==> value_at(applied_at(entries, key, outcome).0, other) == value_at(
            entries,
            other,
        ),
{
    match value_at(entries, key) {
        Some(value) => {
            lemma_with_value(entries, key, outcome(value).0, other);
        },
        None => {},
    }
}

/// A repair that changes nothing when it is applied again changes nothing under a key
/// when it is applied there again.
pub proof fn lemma_applied_again(
    entries: Seq<(Seq<char>, Tree)>,
    key: Seq<char>,
    outcome: spec_fn(Tree) -> (Tree, nat),
)
    requires
        forall|value: Tree|
            value_at(entries, key) == Some(value) ==> outcome(#[trigger] outcome(value).0) == (
                outcome(value).0,
                0nat,
            ),
    ensures
        applied_at(applied_at(entries, key, outcome).0, key, outcome) == (
            applied_at(entries, key, outcome).0,
            0nat,
        ),
{
    lemma_applied_at(entries, key, outcome, key);
    match value_at(entries, key) {
        Some(value) => {
            let once = applied_at(entries, key, outcome).0;
            lemma_key_index_bounds(entries, key, 0);
            assert(with_value(once, key, outcome(value).0) =~= once);
        },
        None => {},
    }
}

/// After the repair of a list of entities, none of them carries custom data: those that
/// did were taken out, and the repair of the others gave them none.
pub proof fn lemma_no_custom_data_is_left(
    list: Seq<Tree>,
    chunk_x: int,
    chunk_z: int,
    used: Set<Seq<char>>,
    draws: Seq<u128>,
    i: int,
)
    requires
        0 <= i < kept_entities(list, list.len() as int).len(),
    ensures
        ({
            let after = entity_list_outcome(
                Tree::List(list),
                chunk_x,
                chunk_z,
                used,
                draws,
            ).tree->List_0;
            &&& after.len() == kept_entities(list, list.len() as int).len()
            &&& !carries_custom_data(after[i])
        }),
{
    let kept = kept_entities(list, list.len() as int);
    lemma_kept_carry_no_custom_data(list, list.len() as int, i);
    lemma_entities_keep_custom_data(kept, kept.len() as int, chunk_x, chunk_z, used, draws, i);
}

} // verus!
