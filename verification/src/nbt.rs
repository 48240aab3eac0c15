//! Tagged values: the trees that chunk payloads hold. The codec itself is
//! `fastnbt`; this module holds the tree that the repair works on, and has the
//! codec parse payloads into it. A tree holds its floats by their bits. Turning
//! a tree back into a payload is the caller's, with the codec's serializer.

use crate::region::Chunk;
use fastnbt::Value as Coded;
use vstd::prelude::*;

verus! {

/// A tagged value. A float is held by its IEEE 754 bits. A compound is held as
/// the list of its entries; a lookup by key takes the first entry with that key.
pub enum Value {
    Byte(i8),
    Short(i16),
    Int(i32),
    Long(i64),
    Float(u32),
    Double(u64),
    String(String),
    ByteArray(Vec<i8>),
    IntArray(Vec<i32>),
    LongArray(Vec<i64>),
    List(Vec<Value>),
    Compound(Vec<(String, Value)>),
}

/// What a [`Value`] stands for.
pub enum Tree {
    Byte(i8),
    Short(i16),
    Int(i32),
    Long(i64),
    Float(u32),
    Double(u64),
    String(Seq<char>),
    ByteArray(Seq<i8>),
    IntArray(Seq<i32>),
    LongArray(Seq<i64>),
    List(Seq<Tree>),
    Compound(Seq<(Seq<char>, Tree)>),
}

impl Value {
    /// The tree that this value stands for.
    pub open spec fn tree(self) -> Tree
        decreases self,
    {
        match self {
            Value::Byte(v) => Tree::Byte(v),
            Value::Short(v) => Tree::Short(v),
            Value::Int(v) => Tree::Int(v),
            Value::Long(v) => Tree::Long(v),
            Value::Float(v) => Tree::Float(v),
            Value::Double(v) => Tree::Double(v),
            Value::String(v) => Tree::String(v@),
            Value::ByteArray(v) => Tree::ByteArray(v@),
            Value::IntArray(v) => Tree::IntArray(v@),
            Value::LongArray(v) => Tree::LongArray(v@),
            Value::List(items) => Tree::List(
                Seq::new(
                    items@.len(),
                    |i: int|
                        if 0 <= i < items@.len() {
                            items@[i].tree()
                        } else {
                            Tree::Byte(0)
                        },
                ),
            ),
            Value::Compound(entries) => Tree::Compound(
                Seq::new(
                    entries@.len(),
                    |i: int|
                        if 0 <= i < entries@.len() {
                            (entries@[i].0@, entries@[i].1.tree())
                        } else {
                            (Seq::empty(), Tree::Byte(0))
                        },
                ),
            ),
        }
    }
}

impl View for Value {
    type V = Tree;

    open spec fn view(&self) -> Tree {
        self.tree()
    }
}

/// The trees of a list of values.
pub open spec fn list_trees(items: Seq<Value>) -> Seq<Tree> {
    Seq::new(items.len(), |i: int| items[i]@)
}

/// The entries of a compound, by key and tree.
pub open spec fn entry_trees(entries: Seq<(String, Value)>) -> Seq<(Seq<char>, Tree)> {
    Seq::new(entries.len(), |i: int| (entries[i].0@, entries[i].1@))
}

/// A list stands for the trees of its items, a compound for those of its entries.
pub proof fn lemma_tree_of_parts(value: Value)
    ensures
        value matches Value::List(items) ==> value@ == Tree::List(list_trees(items@)),
        value matches Value::Compound(entries) ==> value@ == Tree::Compound(
            entry_trees(entries@),
        ),
{
    match value {
        Value::List(items) => {
            assert(value@->List_0 =~= list_trees(items@));
        },
        Value::Compound(entries) => {
            assert(value@->Compound_0 =~= entry_trees(entries@));
        },
        _ => {},
    }
}

/// Index of the first entry at or after `from` whose key is `key`, or the number of
/// entries where there is none.
pub open spec fn key_index_from(entries: Seq<(Seq<char>, Tree)>, key: Seq<char>, from: int) -> int
    decreases entries.len() - from,
{
    if from >= entries.len() {
        entries.len() as int
    } else if entries[from].0 == key {
        from
    } else {
        key_index_from(entries, key, from + 1)
    }
}

/// Index of the first entry whose key is `key`, or the number of entries where there is
/// none.
pub open spec fn key_index(entries: Seq<(Seq<char>, Tree)>, key: Seq<char>) -> int {
    key_index_from(entries, key, 0)
}

/// Whether some entry has the key `key`.
pub open spec fn has_key(entries: Seq<(Seq<char>, Tree)>, key: Seq<char>) -> bool {
    key_index(entries, key) < entries.len()
}

/// The index that a lookup gives lies among the entries or just behind them.
pub proof fn lemma_key_index_bounds(entries: Seq<(Seq<char>, Tree)>, key: Seq<char>, from: int)
    requires
        0 <= from,
    ensures
        from <= key_index_from(entries, key, from) || key_index_from(entries, key, from)
            == entries.len(),
        key_index_from(entries, key, from) <= entries.len(),
        key_index_from(entries, key, from) < entries.len() ==> entries[key_index_from(
            entries,
            key,
            from,
        )].0 == key,
    decreases entries.len() - from,
{
    if from < entries.len() && entries[from].0 != key {
        lemma_key_index_bounds(entries, key, from + 1);
    }
}

/// Whether no two entries have the same key.
pub open spec fn keys_differ(entries: Seq<(Seq<char>, Tree)>) -> bool {
    forall|i: int, j: int|
        0 <= i < j < entries.len() ==> (#[trigger] entries[i]).0 != (#[trigger] entries[j]).0
}

/// Whether no compound anywhere in `t` has two entries with the same key. A tree that
/// the codec parsed is so.
pub open spec fn well_keyed(t: Tree) -> bool
    decreases t,
{
    match t {
        Tree::List(items) => forall|i: int|
            0 <= i < items.len() ==> well_keyed(#[trigger] items[i]),
        Tree::Compound(entries) => keys_differ(entries) && forall|i: int|
            0 <= i < entries.len() ==> well_keyed((#[trigger] entries[i]).1),
        _ => true,
    }
}

/// Whether `a` is `b` but for the order in which compounds list their entries: a list
/// matches a list item by item, a compound matches a compound with as many entries that
/// holds under each key of the first a value that matches, and anything else matches
/// what it equals.
pub open spec fn tree_matches(a: Tree, b: Tree) -> bool
    decreases a,
{
    match a {
        Tree::List(items) => b matches Tree::List(others) && items.len() == others.len()
            && forall|i: int|
            0 <= i < items.len() ==> tree_matches(#[trigger] items[i], others[i]),
        Tree::Compound(entries) => b matches Tree::Compound(others) && entries.len()
            == others.len() && forall|i: int|
            0 <= i < entries.len() ==> has_key(others, (#[trigger] entries[i]).0) && tree_matches(
                entries[i].1,
                others[key_index(others, entries[i].0)].1,
            ),
        _ => a == b,
    }
}

/// The tree that the codec reads from a payload, with the entries of every compound in
/// an order that depends on the payload alone; `None` where the codec reports an error.
pub uninterp spec fn nbt_tree(data: Seq<u8>) -> Option<Tree>;

/// Whether `tree` is what a parse of `data` may give: the tree that the codec reads from
/// `data`, with the entries of its compounds in any order, and no key twice in any of
/// them.
pub open spec fn parses_as(data: Seq<u8>, tree: Tree) -> bool {
    nbt_tree(data) matches Some(read) && tree_matches(tree, read) && well_keyed(tree)
}

/// Entries with the same keys are looked up alike.
pub proof fn lemma_same_keys(
    a: Seq<(Seq<char>, Tree)>,
    b: Seq<(Seq<char>, Tree)>,
    key: Seq<char>,
    from: int,
)
    requires
        0 <= from,
        a.len() == b.len(),
        forall|k: int| 0 <= k < a.len() ==> (#[trigger] a[k]).0 == b[k].0,
    ensures
        key_index_from(a, key, from) == key_index_from(b, key, from),
    decreases a.len() - from,
{
    if from < a.len() {
        assert(a[from].0 == b[from].0);
        if a[from].0 != key {
            lemma_same_keys(a, b, key, from + 1);
        }
    }
}

/// Index of the first entry of a compound whose key is `key`.
pub fn find_entry(entries: &Vec<(String, Value)>, key: &str) -> (found: Option<usize>)
    ensures
        match found {
            Some(index) => index < entries@.len() && index == key_index(
                entry_trees(entries@),
                key@,
            ),
            None => !has_key(entry_trees(entries@), key@),
        },
{
    let wanted: String = key.to_owned();
    let ghost trees = entry_trees(entries@);
    let mut i: usize = 0;
    while i < entries.len()
        invariant
            i <= entries@.len(),
            wanted@ == key@,
            trees == entry_trees(entries@),
            key_index(trees, key@) == key_index_from(trees, key@, i as int),
        decreases entries@.len() - i,
    {
        if entries[i].0 == wanted {
            return Some(i);
        }
        i += 1;
    }
    None
}

/// `fastnbt::Value`, the codec's own tree, carried through unopened.
#[verifier::external_type_specification]
#[verifier::external_body]
pub struct ExCoded(Coded);

/// `fastnbt::error::Error`, carried through unopened.
#[verifier::external_type_specification]
#[verifier::external_body]
pub struct ExCodecError(fastnbt::error::Error);

/// Why a payload could not be turned into a tree.
#[derive(Debug)]
pub enum NbtError {
    /// The codec could not parse the payload.
    Parse(fastnbt::error::Error),
}

/// `fastnbt::from_bytes` at the type `fastnbt::Value`, and the value moved into a
/// [`Value`].
///
/// Believed of `fastnbt`: whether it reports an error, and what it reads, depend on the
/// bytes alone, but for the order of the entries of a compound, which it keeps in a hash
/// map; and so no compound that it gives has a key twice.
#[verifier::external_body]
fn codec_parse(data: &[u8]) -> (r: Result<Value, fastnbt::error::Error>)
    ensures
        match r {
            Ok(value) => parses_as(data@, value@),
            Err(_) => nbt_tree(data@).is_none(),
        },
{
    fastnbt::from_bytes::<Coded>(data).map(value_from_codec)
}

/// Moves a `fastnbt::Value` into a [`Value`]: the numbers here, the rest below. A float
/// is taken by its bits.
#[verifier::external_body]
fn value_from_codec(tree: Coded) -> (value: Value) {
    match tree {
        Coded::Byte(v) => Value::Byte(v),
        Coded::Short(v) => Value::Short(v),
        Coded::Int(v) => Value::Int(v),
        Coded::Long(v) => Value::Long(v),
        Coded::Float(v) => Value::Float(v.to_bits()),
        Coded::Double(v) => Value::Double(v.to_bits()),
        other => text_from_codec(other),
    }
}

/// Moves a string or an array of a `fastnbt::Value` into a [`Value`].
#[verifier::external_body]
fn text_from_codec(tree: Coded) -> (value: Value) {
    match tree {
        Coded::String(v) => Value::String(v),
        Coded::ByteArray(v) => Value::ByteArray(v.into_inner()),
        Coded::IntArray(v) => Value::IntArray(v.into_inner()),
        Coded::LongArray(v) => Value::LongArray(v.into_inner()),
        other => branch_from_codec(other),
    }
}

/// Moves a list or a compound of a `fastnbt::Value` into a [`Value`], item by item.
#[verifier::external_body]
fn branch_from_codec(tree: Coded) -> (value: Value) {
    match tree {
        Coded::List(v) => Value::List(v.into_iter().map(value_from_codec).collect()),
        Coded::Compound(v) => Value::Compound(
            v.into_iter().map(|(k, v)| (k, value_from_codec(v))).collect(),
        ),
        other => value_from_codec(other),
    }
}

/// Parses a payload into a tree with the codec. Whether the payload parses depends on
/// its bytes alone. The tree is the one that the codec reads, but for the order of the
/// entries of its compounds: the codec keeps them in a hash map, so their order is not
/// even the same from one call to the next. No compound of the tree has a key twice.
pub fn parse_nbt(data: &[u8]) -> (r: Result<Value, NbtError>)
    ensures
        match r {
            Ok(value) => parses_as(data@, value@),
            Err(_) => nbt_tree(data@).is_none(),
        },
{
    match codec_parse(data) {
        Ok(value) => Ok(value),
        Err(e) => Err(NbtError::Parse(e)),
    }
}

impl Chunk {
    /// Parses the payload of this chunk into a tree, as [`parse_nbt`] does.
    pub fn parse_nbt(&self) -> (r: Result<Value, NbtError>)
        ensures
            match r {
                Ok(value) => parses_as(self@.payload, value@),
                Err(_) => nbt_tree(self@.payload).is_none(),
            },
    {
        parse_nbt(self.as_slice())
    }
}

} // verus!
