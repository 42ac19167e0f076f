//! Configuration values: what a configuration holds under a name.
use crate::config_crate::FloatValue;
use vstd::prelude::*;

verus! {

/// A configuration value as a mathematical tree. A table maps names to values,
/// and a floating-point number is its IEEE 754 bit pattern.
pub enum ValueTree {
    Nil,
    Boolean(bool),
    I64(i64),
    I128(i128),
    U64(u64),
    U128(u128),
    Float(u64),
    String(Seq<char>),
    Table(Map<Seq<char>, ValueTree>),
    Array(Seq<ValueTree>),
}

/// A configuration value.
#[derive(Debug, PartialEq)]
pub enum ConfigValue {
    Nil,
    Boolean(bool),
    I64(i64),
    I128(i128),
    U64(u64),
    U128(u128),
    Float(FloatValue),
    String(String),
    Table(Vec<ConfigEntry>),
    Array(Vec<ConfigValue>),
}

/// A named value of a table.
#[derive(Debug, PartialEq)]
pub struct ConfigEntry {
    pub key: String,
    pub value: ConfigValue,
}

/// The tree that a value stands for.
pub open spec fn value_tree(value: ConfigValue) -> ValueTree
    decreases value,
{
    match value {
        ConfigValue::Nil => ValueTree::Nil,
        ConfigValue::Boolean(v) => ValueTree::Boolean(v),
        ConfigValue::I64(v) => ValueTree::I64(v),
        ConfigValue::I128(v) => ValueTree::I128(v),
        ConfigValue::U64(v) => ValueTree::U64(v),
        ConfigValue::U128(v) => ValueTree::U128(v),
        ConfigValue::Float(v) => ValueTree::Float(v@),
        ConfigValue::String(v) => ValueTree::String(v@),
        ConfigValue::Table(entries) => ValueTree::Table(entries_tree(entries@)),
        ConfigValue::Array(values) => ValueTree::Array(values_tree(values@)),
    }
}

/// The map that the entries of a table stand for.
pub open spec fn entries_tree(entries: Seq<ConfigEntry>) -> Map<Seq<char>, ValueTree>
    decreases entries,
{
    if entries.len() == 0 {
        Map::empty()
    } else {
        entries_tree(entries.drop_last()).insert(
            entries.last().key@,
            value_tree(entries.last().value),
        )
    }
}

/// The trees of the values of an array.
pub open spec fn values_tree(values: Seq<ConfigValue>) -> Seq<ValueTree>
    decreases values,
{
    if values.len() == 0 {
        Seq::empty()
    } else {
        values_tree(values.drop_last()).push(value_tree(values.last()))
    }
}

impl View for ConfigValue {
    type V = ValueTree;

    open spec fn view(&self) -> ValueTree {
        value_tree(*self)
    }
}

/// No table in `value` holds a name twice.
pub open spec fn well_formed(value: ConfigValue) -> bool
    decreases value,
{
    match value {
        ConfigValue::Table(entries) => {
            &&& distinct_keys(entries@)
            &&& forall|i: int|
                0 <= i < entries@.len() ==> well_formed((#[trigger] entries@[i]).value)
        },
        ConfigValue::Array(values) => forall|i: int|
            0 <= i < values@.len() ==> well_formed(#[trigger] values@[i]),
        _ => true,
    }
}

/// The names of the entries differ.
pub open spec fn distinct_keys(entries: Seq<ConfigEntry>) -> bool {
    forall|i: int, j: int|
        0 <= i < j < entries.len() ==> (#[trigger] entries[i]).key@ != (#[trigger] entries[j]).key@
}

/// A table maps each of its names to the value of the entry that bears it.
pub proof fn lemma_entries_tree(entries: Seq<ConfigEntry>)
    requires
        distinct_keys(entries),
    ensures
        forall|i: int|
            0 <= i < entries.len() ==> entries_tree(entries).contains_key(
                (#[trigger] entries[i]).key@,
            ) && entries_tree(entries)[entries[i].key@] == value_tree(entries[i].value),
        forall|k: Seq<char>| #[trigger]
            entries_tree(entries).contains_key(k) ==> exists|i: int|
                0 <= i < entries.len() && (#[trigger] entries[i]).key@ == k,
        entries_tree(entries).dom().finite(),
    decreases entries.len(),
{
    if entries.len() > 0 {
        let front = entries.drop_last();
        assert forall|i: int, j: int| 0 <= i < j < front.len() implies (#[trigger] front[i]).key@
            != (#[trigger] front[j]).key@ by {
            assert(front[i] == entries[i] && front[j] == entries[j]);
        }
        lemma_entries_tree(front);
        assert forall|i: int| 0 <= i < entries.len() implies entries_tree(entries).contains_key(
            (#[trigger] entries[i]).key@,
        ) && entries_tree(entries)[entries[i].key@] == value_tree(entries[i].value) by {
            if i < front.len() {
                assert(front[i] == entries[i]);
                assert(entries[i].key@ != entries[front.len() as int].key@);
            }
        }
        assert forall|k: Seq<char>| #[trigger]
            entries_tree(entries).contains_key(k) implies exists|i: int|
            0 <= i < entries.len() && (#[trigger] entries[i]).key@ == k by {
            if k != entries.last().key@ {
                assert(entries_tree(front).contains_key(k));
                let i = choose|i: int| 0 <= i < front.len() && (#[trigger] front[i]).key@ == k;
                assert(entries[i].key@ == k);
            } else {
                assert(entries[entries.len() - 1].key@ == k);
            }
        }
    }
}

/// The trees of an array stand in the order of its values.
pub proof fn lemma_values_tree(values: Seq<ConfigValue>)
    ensures
        values_tree(values).len() == values.len(),
        forall|i: int|
            0 <= i < values.len() ==> #[trigger] values_tree(values)[i] == value_tree(values[i]),
    decreases values.len(),
{
    if values.len() > 0 {
        lemma_values_tree(values.drop_last());
    }
}

/// What a name holds after `new` is laid over `old`: a table is merged into
/// the table that is there, anything else replaces what is there. An empty
/// table changes nothing that is there.
pub open spec fn overlaid_value(old: Option<ValueTree>, new: ValueTree) -> ValueTree
    decreases new,
{
    match (old, new) {
        (Some(ValueTree::Table(below)), ValueTree::Table(above)) => ValueTree::Table(
            Map::new(
                |name: Seq<char>| below.contains_key(name) || above.contains_key(name),
                |name: Seq<char>|
                    if above.contains_key(name) {
                        overlaid_value(held(below, name), above[name])
                    } else {
                        below[name]
                    },
            ),
        ),
        (Some(other), ValueTree::Table(above)) => if above.dom() =~= Set::empty() {
            other
        } else {
            new
        },
        _ => new,
    }
}

/// What a table holds under a name, if anything.
pub open spec fn held(table: Map<Seq<char>, ValueTree>, name: Seq<char>) -> Option<ValueTree> {
    if table.contains_key(name) {
        Some(table[name])
    } else {
        None
    }
}

/// The table that comes of laying the table `above` over the table `below`.
pub open spec fn overlaid(
    below: Map<Seq<char>, ValueTree>,
    above: Map<Seq<char>, ValueTree>,
) -> Map<Seq<char>, ValueTree> {
    Map::new(
        |name: Seq<char>| below.contains_key(name) || above.contains_key(name),
        |name: Seq<char>|
            if above.contains_key(name) {
                overlaid_value(held(below, name), above[name])
            } else {
                below[name]
            },
    )
}

/// The table that comes of laying the tables over `base`, the first one lowest.
pub open spec fn overlaid_onto(
    base: Map<Seq<char>, ValueTree>,
    tables: Seq<Map<Seq<char>, ValueTree>>,
) -> Map<Seq<char>, ValueTree>
    decreases tables.len(),
{
    if tables.len() == 0 {
        base
    } else {
        overlaid(overlaid_onto(base, tables.drop_last()), tables.last())
    }
}

/// The table that comes of laying the tables over each other, the first one
/// lowest.
pub open spec fn overlaid_all(tables: Seq<Map<Seq<char>, ValueTree>>) -> Map<
    Seq<char>,
    ValueTree,
> {
    overlaid_onto(Map::empty(), tables)
}

/// A copy of a value.
pub fn duplicate(value: &ConfigValue) -> (copy: ConfigValue)
    ensures
        copy@ == value@,
        well_formed(*value) ==> well_formed(copy),
    decreases value,
{
    match value {
        ConfigValue::Nil => ConfigValue::Nil,
        ConfigValue::Boolean(v) => ConfigValue::Boolean(*v),
        ConfigValue::I64(v) => ConfigValue::I64(*v),
        ConfigValue::I128(v) => ConfigValue::I128(*v),
        ConfigValue::U64(v) => ConfigValue::U64(*v),
        ConfigValue::U128(v) => ConfigValue::U128(*v),
        ConfigValue::Float(v) => ConfigValue::Float(v.duplicate()),
        ConfigValue::String(v) => ConfigValue::String(v.clone()),
        ConfigValue::Table(entries) => {
            let mut copies: Vec<ConfigEntry> = Vec::new();
            let mut i: usize = 0;
            while i < entries.len()
                invariant
                    i <= entries.len(),
                    value == ConfigValue::Table(*entries),
                    copies@.len() == i,
                    entries_tree(copies@) == entries_tree(entries@.take(i as int)),
                    forall|j: int|
                        0 <= j < i ==> (#[trigger] copies@[j]).key@ == entries@[j].key@ && (
                        well_formed(entries@[j].value) ==> well_formed(copies@[j].value)),
                decreases entries.len() - i,
            {
                proof {
                    assert(decreases_to!(*value => value->Table_0));
                    assert(decreases_to!(*entries => entries@));
                    assert(decreases_to!(entries@ => entries@[i as int]));
                }
                let entry = ConfigEntry {
                    key: entries[i].key.clone(),
                    value: duplicate(&entries[i].value),
                };
                let ghost before = copies@;
                copies.push(entry);
                assert(copies@.drop_last() =~= before);
                assert(entries@.take(i + 1).drop_last() =~= entries@.take(i as int));
                i += 1;
            }
            assert(entries@.take(i as int) =~= entries@);
            ConfigValue::Table(copies)
        },
        ConfigValue::Array(values) => {
            let mut copies: Vec<ConfigValue> = Vec::new();
            let mut i: usize = 0;
            while i < values.len()
                invariant
                    i <= values.len(),
                    value == ConfigValue::Array(*values),
                    copies@.len() == i,
                    values_tree(copies@) == values_tree(values@.take(i as int)),
                    forall|j: int|
                        0 <= j < i ==> (well_formed(values@[j]) ==> well_formed(
                            #[trigger] copies@[j],
                        )),
                decreases values.len() - i,
            {
                let ghost before = copies@;
                proof {
                    assert(decreases_to!(*value => value->Array_0));
                    assert(decreases_to!(*values => values@));
                    assert(decreases_to!(values@ => values@[i as int]));
                }
                copies.push(duplicate(&values[i]));
                assert(copies@.drop_last() =~= before);
                assert(values@.take(i + 1).drop_last() =~= values@.take(i as int));
                i += 1;
            }
            assert(values@.take(i as int) =~= values@);
            ConfigValue::Array(copies)
        },
    }
}

impl Clone for ConfigValue {
    fn clone(&self) -> (copy: Self)
        ensures
            copy@ == self@,
            well_formed(*self) ==> well_formed(copy),
    {
        duplicate(self)
    }
}

} // verus!
