//! Configuration values as TOML values.
use crate::error::{ConfigFailure, ConfigFailureText};
use crate::order::{
    ascending, lemma_ascending_distinct, lemma_name_lt_irreflexive, lemma_name_lt_transitive,
    lemma_sorted_names_list, name_lt, sorted_names,
};
use crate::resolve::{entry_names, lemma_sorted_entries, sorted_by_key};
use crate::toml_crate::{
    array_value, boolean_value, float_value, inline_entries, inline_table_value, integer_value,
    parse_value, parsed_value, string_value, toml_tree, TomlTree,
};
use crate::value::{
    entries_tree, lemma_entries_tree, lemma_values_tree, value_tree, values_tree, well_formed,
    ConfigValue, ValueTree,
};
use toml_edit::Value;
use vstd::prelude::*;

verus! {

/// What a text stands for, given the value that it is the expression of, if it
/// is one: that value, or else the text itself as a string.
pub open spec fn value_or_text(parsed: Option<TomlTree>, text: Seq<char>) -> TomlTree {
    match parsed {
        Some(tree) => tree,
        None => TomlTree::String(text),
    }
}

/// The tree of an optional value.
pub open spec fn opt_toml_tree(value: Option<Value>) -> Option<TomlTree> {
    match value {
        Some(value) => Some(toml_tree(value)),
        None => None,
    }
}

/// Takes the value that was read from a text, or else the text as a string.
pub fn value_or_bare_string(parsed: Option<Value>, value_str: &str) -> (value: Value)
    ensures
        toml_tree(value) == value_or_text(opt_toml_tree(parsed), value_str@),
        match parsed {
            Some(parsed) => toml_tree(value) == toml_tree(parsed),
            None => toml_tree(value) == TomlTree::String(value_str@),
        },
{
    match parsed {
        Some(value) => value,
        None => string_value(value_str),
    }
}

/// Parses a TOML value expression. Interprets the given value as string if it
/// can't be parsed.
pub fn parse_toml_value_or_bare_string(value_str: &str) -> (value: Value)
    ensures
        toml_tree(value) == value_or_text(parsed_value(value_str@), value_str@),
        match parsed_value(value_str@) {
            Some(tree) => toml_tree(value) == tree,
            None => toml_tree(value) == TomlTree::String(value_str@),
        },
{
    value_or_bare_string(parse_value(value_str), value_str)
}

/// What is said of a value that has no counterpart in TOML.
pub open spec fn nil_message() -> Seq<char> {
    "Unexpected value: nil"@
}

/// What is said of an integer that does not fit in 64 bits with a sign.
pub open spec fn range_message() -> Seq<char> {
    "out of range integral type conversion attempted"@
}

/// An integer as a TOML value.
pub open spec fn toml_integer(v: int) -> Result<TomlTree, Seq<char>> {
    if i64::MIN <= v <= i64::MAX {
        Ok(TomlTree::Integer(v as i64))
    } else {
        Err(range_message())
    }
}

/// All results, if there is no error among them, and the first error if there
/// is one.
pub open spec fn gathered(children: Seq<Result<TomlTree, Seq<char>>>) -> Result<
    Seq<TomlTree>,
    Seq<char>,
>
    decreases children.len(),
{
    if children.len() == 0 {
        Ok(Seq::empty())
    } else {
        match gathered(children.drop_last()) {
            Ok(trees) => match children.last() {
                Ok(tree) => Ok(trees.push(tree)),
                Err(message) => Err(message),
            },
            Err(message) => Err(message),
        }
    }
}

/// The TOML value that stands for a configuration value, or what is said of a
/// configuration value that has none. Names of tables come in ascending order.
pub open spec fn toml_of(tree: ValueTree) -> Result<TomlTree, Seq<char>>
    decreases tree, 1int,
{
    match tree {
        ValueTree::Nil => Err(nil_message()),
        ValueTree::Boolean(v) => Ok(TomlTree::Boolean(v)),
        ValueTree::I64(v) => Ok(TomlTree::Integer(v)),
        ValueTree::I128(v) => toml_integer(v as int),
        ValueTree::U64(v) => toml_integer(v as int),
        ValueTree::U128(v) => toml_integer(v as int),
        ValueTree::Float(v) => Ok(TomlTree::Float(v)),
        ValueTree::String(v) => Ok(TomlTree::String(v)),
        ValueTree::Table(table) => match gathered(toml_children(tree)) {
            Ok(trees) => Ok(
                TomlTree::InlineTable(named(sorted_names(table.dom()), trees)),
            ),
            Err(message) => Err(message),
        },
        ValueTree::Array(_) => match gathered(toml_children(tree)) {
            Ok(trees) => Ok(TomlTree::Array(trees)),
            Err(message) => Err(message),
        },
    }
}

/// The TOML values that stand for the values of a table or an array.
pub open spec fn toml_children(tree: ValueTree) -> Seq<Result<TomlTree, Seq<char>>>
    decreases tree, 0int,
{
    match tree {
        ValueTree::Table(table) => {
            let names = sorted_names(table.dom());
            Seq::new(
                names.len(),
                |i: int|
                    if table.contains_key(names[i]) {
                        toml_of(table[names[i]])
                    } else {
                        Err(Seq::empty())
                    },
            )
        },
        ValueTree::Array(values) => Seq::new(
            values.len(),
            |i: int|
                if 0 <= i < values.len() {
                    toml_of(values[i])
                } else {
                    Err(Seq::empty())
                },
        ),
        _ => Seq::empty(),
    }
}

/// The trees with their names.
pub open spec fn named(names: Seq<Seq<char>>, trees: Seq<TomlTree>) -> Seq<(Seq<char>, TomlTree)> {
    Seq::new(trees.len(), |i: int| (names[i], trees[i]))
}

/// What `to_toml_value` gives of a value.
pub open spec fn converted(tree: ValueTree, result: Result<Value, ConfigFailure>) -> bool {
    match (toml_of(tree), result) {
        (Ok(tree), Ok(value)) => toml_tree(value) == tree,
        (Err(message), Err(error)) => error@ == ConfigFailureText::Message(message),
        _ => false,
    }
}

/// The configuration value that a TOML value stands for. A date stands for its text.
pub open spec fn value_of(toml: TomlTree) -> ValueTree
    decreases toml,
{
    match toml {
        TomlTree::String(v) => ValueTree::String(v),
        TomlTree::Integer(v) => ValueTree::I64(v),
        TomlTree::Float(v) => ValueTree::Float(v),
        TomlTree::Boolean(v) => ValueTree::Boolean(v),
        TomlTree::Datetime(v) => ValueTree::String(v),
        TomlTree::Array(values) => ValueTree::Array(
            Seq::new(
                values.len(),
                |i: int|
                    if 0 <= i < values.len() {
                        value_of(values[i])
                    } else {
                        ValueTree::Nil
                    },
            ),
        ),
        TomlTree::InlineTable(entries) => ValueTree::Table(
            Map::new(
                |name: Seq<char>|
                    exists|i: int| 0 <= i < entries.len() && (#[trigger] entries[i]).0 == name,
                |name: Seq<char>|
                    {
                        let i = choose|i: int|
                            0 <= i < entries.len() && (#[trigger] entries[i]).0 == name;
                        if 0 <= i < entries.len() {
                            value_of(entries[i].1)
                        } else {
                            ValueTree::Nil
                        }
                    },
            ),
        ),
    }
}

/// Every table of the value is finite, also inside of arrays.
pub open spec fn has_finite_tables(tree: ValueTree) -> bool
    decreases tree,
{
    match tree {
        ValueTree::Table(table) => {
            &&& table.dom().finite()
            &&& forall|name: Seq<char>| #[trigger]
                table.contains_key(name) ==> has_finite_tables(table[name])
        },
        ValueTree::Array(values) => forall|i: int|
            0 <= i < values.len() ==> has_finite_tables(#[trigger] values[i]),
        _ => true,
    }
}

/// Every table of a value of the library is finite.
pub proof fn lemma_value_has_finite_tables(value: ConfigValue)
    requires
        well_formed(value),
    ensures
        has_finite_tables(value@),
    decreases value,
{
    match value {
        ConfigValue::Table(entries) => {
            lemma_entries_tree(entries@);
            let table = entries_tree(entries@);
            assert forall|name: Seq<char>| #[trigger]
                table.contains_key(name) implies has_finite_tables(table[name]) by {
                let i = choose|i: int|
                    0 <= i < entries@.len() && (#[trigger] entries@[i]).key@ == name;
                assert(decreases_to!(value => value->Table_0));
                assert(decreases_to!(entries => entries@));
                assert(decreases_to!(entries@ => entries@[i]));
                lemma_value_has_finite_tables(entries@[i].value);
            }
        },
        ConfigValue::Array(values) => {
            lemma_values_tree(values@);
            let trees = values_tree(values@);
            assert forall|i: int| 0 <= i < trees.len() implies has_finite_tables(
                #[trigger] trees[i],
            ) by {
                assert(decreases_to!(value => value->Array_0));
                assert(decreases_to!(values => values@));
                assert(decreases_to!(values@ => values@[i]));
                assert(well_formed(values@[i]));
                lemma_value_has_finite_tables(values@[i]);
            }
        },
        _ => {},
    }
}

/// The number that an integer is, however many bits it takes.
pub open spec fn integer_of(tree: ValueTree) -> Option<int> {
    match tree {
        ValueTree::I64(v) => Some(v as int),
        ValueTree::I128(v) => Some(v as int),
        ValueTree::U64(v) => Some(v as int),
        ValueTree::U128(v) => Some(v as int),
        _ => None,
    }
}

/// The values are the same but for how many bits their integers take.
pub open spec fn same_value(a: ValueTree, b: ValueTree) -> bool
    decreases a,
{
    match (a, b) {
        (ValueTree::Array(a), ValueTree::Array(b)) => {
            &&& a.len() == b.len()
            &&& forall|i: int| 0 <= i < a.len() ==> same_value(#[trigger] a[i], b[i])
        },
        (ValueTree::Table(a), ValueTree::Table(b)) => {
            &&& a.dom() == b.dom()
            &&& forall|name: Seq<char>| #[trigger]
                a.contains_key(name) ==> same_value(a[name], b[name])
        },
        _ => a == b || (integer_of(a) is Some && integer_of(a) == integer_of(b)),
    }
}

proof fn lemma_gathered_error(children: Seq<Result<TomlTree, Seq<char>>>, n: int)
    requires
        0 <= n <= children.len(),
        gathered(children.take(n)) is Err,
    ensures
        gathered(children) == gathered(children.take(n)),
    decreases children.len() - n,
{
    if n < children.len() {
        assert(children.take(n + 1).drop_last() =~= children.take(n));
        lemma_gathered_error(children, n + 1);
    } else {
        assert(children.take(n) =~= children);
    }
}

fn range_error() -> (error: ConfigFailure)
    ensures
        error@ == ConfigFailureText::Message(range_message()),
{
    ConfigFailure::Message("out of range integral type conversion attempted".to_owned())
}

/// The TOML value that stands for a configuration value. Values that TOML does
/// not know, and integers that do not fit, are errors.
pub fn to_toml_value(value: &ConfigValue) -> (result: Result<Value, ConfigFailure>)
    requires
        well_formed(*value),
    ensures
        converted(value@, result),
        *value matches ConfigValue::Boolean(v) ==> (result matches Ok(toml) && toml_tree(toml)
            == TomlTree::Boolean(v)),
        *value matches ConfigValue::I64(v) ==> (result matches Ok(toml) && toml_tree(toml)
            == TomlTree::Integer(v)),
        *value matches ConfigValue::Float(v) ==> (result matches Ok(toml) && toml_tree(toml)
            == TomlTree::Float(v@)),
        *value matches ConfigValue::String(v) ==> (result matches Ok(toml) && toml_tree(toml)
            == TomlTree::String(v@)),
        result matches Ok(toml) ==> same_value(value_of(toml_tree(toml)), value@),
{
    proof {
        lemma_value_has_finite_tables(*value);
        law_toml_value_is_read_back(value@);
    }
    convert(value)
}

/// Converts a configuration value, and the values in it one by one.
fn convert(value: &ConfigValue) -> (result: Result<Value, ConfigFailure>)
    requires
        well_formed(*value),
    ensures
        converted(value@, result),
    decreases value,
{
    match value {
        ConfigValue::Nil => Err(ConfigFailure::Message("Unexpected value: nil".to_owned())),
        ConfigValue::Boolean(v) => Ok(boolean_value(*v)),
        ConfigValue::I64(v) => Ok(integer_value(*v)),
        ConfigValue::I128(v) => if i64::MIN as i128 <= *v && *v <= i64::MAX as i128 {
            Ok(integer_value(*v as i64))
        } else {
            Err(range_error())
        },
        ConfigValue::U64(v) => if *v <= i64::MAX as u64 {
            Ok(integer_value(*v as i64))
        } else {
            Err(range_error())
        },
        ConfigValue::U128(v) => if *v <= i64::MAX as u128 {
            Ok(integer_value(*v as i64))
        } else {
            Err(range_error())
        },
        ConfigValue::Float(v) => Ok(float_value(v.raw())),
        ConfigValue::String(v) => Ok(string_value(v.as_str())),
        ConfigValue::Table(entries) => {
            let sorted = sorted_by_key(entries);
            let ghost table = entries_tree(entries@);
            let ghost names = sorted_names(table.dom());
            let ghost children = toml_children(value@);
            proof {
                lemma_sorted_entries(entries@, sorted@);
            }
            let mut converted_entries: Vec<(String, Value)> = Vec::new();
            let ghost mut trees: Seq<TomlTree> = Seq::empty();
            let mut i: usize = 0;
            while i < sorted.len()
                invariant
                    i <= sorted.len(),
                    well_formed(*value),
                    *value == ConfigValue::Table(*entries),
                    table == entries_tree(entries@),
                    names == sorted_names(table.dom()),
                    names == entry_names(sorted@),
                    ascending(names),
                    children == toml_children(value@),
                    forall|j: int|
                        0 <= j < sorted.len() ==> entries@.contains(*#[trigger] sorted@[j])
                            && table.contains_key(sorted@[j].key@) && table[sorted@[j].key@]
                            == value_tree(sorted@[j].value),
                    gathered(children.take(i as int)) == Ok::<Seq<TomlTree>, Seq<char>>(trees),
                    trees.len() == i,
                    converted_entries.len() == i,
                    forall|j: int|
                        0 <= j < i ==> (#[trigger] converted_entries@[j]).0@ == names[j]
                            && toml_tree(converted_entries@[j].1) == trees[j],
                decreases sorted.len() - i,
            {
                let entry = sorted[i];
                proof {
                    assert(entries@.contains(*sorted@[i as int]));
                    let k = choose|k: int| 0 <= k < entries@.len() && entries@[k] == *entry;
                    assert(well_formed(entries@[k].value));
                    assert(decreases_to!(*value => value->Table_0));
                    assert(decreases_to!(*entries => entries@));
                    assert(decreases_to!(entries@ => entries@[k]));
                    assert(names[i as int] == entry.key@);
                    assert(children[i as int] == toml_of(value_tree(entry.value)));
                    assert(children.take(i + 1).drop_last() =~= children.take(i as int));
                    assert(children.take(i + 1).last() == children[i as int]);
                }
                match convert(&entry.value) {
                    Ok(v) => {
                        converted_entries.push((entry.key.clone(), v));
                        proof {
                            trees = trees.push(toml_tree(v));
                        }
                    },
                    Err(error) => {
                        proof {
                            lemma_gathered_error(children, i + 1);
                        }
                        return Err(error);
                    },
                }
                i += 1;
            }
            proof {
                assert(children.take(i as int) =~= children);
                assert(inline_entries(converted_entries@) =~= named(names, trees));
                lemma_ascending_distinct(names);
            }
            Ok(inline_table_value(converted_entries))
        },
        ConfigValue::Array(values) => {
            let ghost children = toml_children(value@);
            proof {
                lemma_values_tree(values@);
            }
            let mut converted_values: Vec<Value> = Vec::new();
            assert(converted_values@.map_values(|v: Value| toml_tree(v)) =~= Seq::empty());
            let mut i: usize = 0;
            while i < values.len()
                invariant
                    i <= values.len(),
                    well_formed(*value),
                    *value == ConfigValue::Array(*values),
                    children == toml_children(value@),
                    values_tree(values@).len() == values.len(),
                    forall|j: int|
                        0 <= j < values.len() ==> #[trigger] values_tree(values@)[j] == value_tree(
                            values@[j],
                        ),
                    gathered(children.take(i as int)) == Ok::<Seq<TomlTree>, Seq<char>>(
                        converted_values@.map_values(|v: Value| toml_tree(v)),
                    ),
                    converted_values.len() == i,
                decreases values.len() - i,
            {
                let ghost before = converted_values@;
                proof {
                    assert(well_formed(values@[i as int]));
                    assert(decreases_to!(*value => value->Array_0));
                    assert(decreases_to!(*values => values@));
                    assert(decreases_to!(values@ => values@[i as int]));
                    assert(values_tree(values@)[i as int] == value_tree(values@[i as int]));
                    assert(children[i as int] == toml_of(value_tree(values@[i as int])));
                    assert(children.take(i + 1).drop_last() =~= children.take(i as int));
                    assert(children.take(i + 1).last() == children[i as int]);
                }
                match convert(&values[i]) {
                    Ok(v) => {
                        converted_values.push(v);
                        assert(converted_values@.map_values(|v: Value| toml_tree(v))
                            =~= before.map_values(|v: Value| toml_tree(v)).push(toml_tree(v)));
                    },
                    Err(error) => {
                        proof {
                            lemma_gathered_error(children, i + 1);
                        }
                        return Err(error);
                    },
                }
                i += 1;
            }
            assert(children.take(i as int) =~= children);
            Ok(array_value(converted_values))
        },
    }
}

/// What is gathered, if no error is among the results.
proof fn lemma_gathered(children: Seq<Result<TomlTree, Seq<char>>>)
    ensures
        match gathered(children) {
            Ok(trees) => {
                &&& trees.len() == children.len()
                &&& forall|i: int|
                    0 <= i < children.len() ==> #[trigger] children[i] == Ok::<TomlTree, Seq<char>>(
                        trees[i],
                    )
            },
            Err(message) => exists|i: int|
                {
                    &&& 0 <= i < children.len()
                    &&& #[trigger] children[i] == Err::<TomlTree, Seq<char>>(message)
                    &&& forall|j: int| 0 <= j < i ==> #[trigger] children[j] is Ok
                },
        },
    decreases children.len(),
{
    if children.len() > 0 {
        let front = children.drop_last();
        lemma_gathered(front);
        assert(forall|i: int| 0 <= i < front.len() ==> #[trigger] front[i] == children[i]);
        match gathered(front) {
            Ok(trees) => {
                assert(children[children.len() - 1] == children.last());
                if children.last() is Err {
                    assert forall|j: int| 0 <= j < children.len() - 1 implies #[trigger]
                        children[j] is Ok by {
                        assert(front[j] is Ok);
                    }
                } else {
                    let all = trees.push(children.last()->Ok_0);
                    assert forall|i: int| 0 <= i < children.len() implies #[trigger] children[i]
                        == Ok::<TomlTree, Seq<char>>(all[i]) by {
                        if i < front.len() {
                            assert(front[i] == Ok::<TomlTree, Seq<char>>(trees[i]));
                        }
                    }
                }
            },
            Err(message) => {
                let i = choose|i: int|
                    {
                        &&& 0 <= i < front.len()
                        &&& #[trigger] front[i] == Err::<TomlTree, Seq<char>>(message)
                        &&& forall|j: int| 0 <= j < i ==> #[trigger] front[j] is Ok
                    };
                assert(children[i] == front[i]);
                assert forall|j: int| 0 <= j < i implies #[trigger] children[j] is Ok by {
                    assert(front[j] is Ok);
                }
            },
        }
    }
}

/// A text that is a TOML value expression stands for that value, and every other text
/// for itself as a string.
pub proof fn law_text_stands_for_its_value(text: Seq<char>, value: Value)
    requires
        toml_tree(value) == value_or_text(parsed_value(text), text),
    ensures
        parsed_value(text) matches Some(tree) ==> toml_tree(value) == tree,
        parsed_value(text) is None ==> toml_tree(value) == TomlTree::String(text),
{
}

/// Truth values, numbers and texts become TOML values of the same kind that hold the
/// same. An integer that does not fit in 64 bits with a sign is an error, and so is a
/// value that TOML does not know.
pub proof fn law_plain_value_becomes_the_same_in_toml(
    tree: ValueTree,
    result: Result<Value, ConfigFailure>,
)
    requires
        converted(tree, result),
    ensures
        tree matches ValueTree::Boolean(v) ==> (result matches Ok(value) && toml_tree(value)
            == TomlTree::Boolean(v)),
        tree matches ValueTree::Float(v) ==> (result matches Ok(value) && toml_tree(value)
            == TomlTree::Float(v)),
        tree matches ValueTree::String(v) ==> (result matches Ok(value) && toml_tree(value)
            == TomlTree::String(v)),
        tree matches ValueTree::I64(v) ==> (result matches Ok(value) && toml_tree(value)
            == TomlTree::Integer(v)),
        tree matches ValueTree::I128(v) ==> (if -0x8000_0000_0000_0000 <= v
            <= 0x7fff_ffff_ffff_ffff {
            result matches Ok(value) && toml_tree(value) matches TomlTree::Integer(w) && w == v
        } else {
            result matches Err(error) && error@ == ConfigFailureText::Message(
                "out of range integral type conversion attempted"@,
            )
        }),
        tree matches ValueTree::U64(v) ==> (if -0x8000_0000_0000_0000 <= v
            <= 0x7fff_ffff_ffff_ffff {
            result matches Ok(value) && toml_tree(value) matches TomlTree::Integer(w) && w == v
        } else {
            result matches Err(error) && error@ == ConfigFailureText::Message(
                "out of range integral type conversion attempted"@,
            )
        }),
        tree matches ValueTree::U128(v) ==> (if -0x8000_0000_0000_0000 <= v
            <= 0x7fff_ffff_ffff_ffff {
            result matches Ok(value) && toml_tree(value) matches TomlTree::Integer(w) && w == v
        } else {
            result matches Err(error) && error@ == ConfigFailureText::Message(
                "out of range integral type conversion attempted"@,
            )
        }),
        tree is Nil ==> (result matches Err(error) && error@ == ConfigFailureText::Message(
            "Unexpected value: nil"@,
        )),
{
}

/// An array becomes an array of what its values become, in their order. If some of them
/// are errors, the first error is reported.
pub proof fn law_array_is_converted_value_by_value(values: Seq<ValueTree>)
    ensures
        match toml_of(ValueTree::Array(values)) {
            Ok(tree) => {
                &&& tree matches TomlTree::Array(trees)
                &&& trees.len() == values.len()
                &&& forall|i: int|
                    0 <= i < values.len() ==> toml_of(#[trigger] values[i]) == Ok::<_, Seq<char>>(
                        trees[i],
                    )
            },
            Err(message) => exists|i: int|
                {
                    &&& 0 <= i < values.len()
                    &&& toml_of(#[trigger] values[i]) == Err::<TomlTree, _>(message)
                    &&& forall|j: int| 0 <= j < i ==> toml_of(#[trigger] values[j]) is Ok
                },
        },
{
    let tree = ValueTree::Array(values);
    let children = toml_children(tree);
    lemma_gathered(children);
    assert forall|i: int| 0 <= i < values.len() implies children[i] == toml_of(
        #[trigger] values[i],
    ) by {}
    if let Err(message) = gathered(children) {
        let i = choose|i: int|
            {
                &&& 0 <= i < children.len()
                &&& #[trigger] children[i] == Err::<TomlTree, Seq<char>>(message)
                &&& forall|j: int| 0 <= j < i ==> #[trigger] children[j] is Ok
            };
        assert(toml_of(values[i]) == Err::<TomlTree, Seq<char>>(message));
        assert forall|j: int| 0 <= j < i implies toml_of(#[trigger] values[j]) is Ok by {
            assert(children[j] is Ok);
        }
    }
}

/// A table becomes an inline table that holds under each of its names what its value
/// becomes. The names stand in ascending order, and if some values are errors, the first
/// one in that order is reported.
pub proof fn law_table_is_converted_name_by_name(table: Map<Seq<char>, ValueTree>)
    requires
        table.dom().finite(),
    ensures
        match toml_of(ValueTree::Table(table)) {
            Ok(tree) => {
                &&& tree matches TomlTree::InlineTable(entries)
                &&& forall|i: int, j: int|
                    0 <= i < j < entries.len() ==> name_lt(entries[i].0, entries[j].0)
                &&& forall|i: int|
                    0 <= i < entries.len() ==> table.contains_key((#[trigger] entries[i]).0)
                        && toml_of(table[entries[i].0]) == Ok::<_, Seq<char>>(entries[i].1)
                &&& forall|name: Seq<char>| #[trigger]
                    table.contains_key(name) ==> exists|i: int|
                        0 <= i < entries.len() && (#[trigger] entries[i]).0 == name
            },
            Err(message) => exists|name: Seq<char>|
                {
                    &&& #[trigger] table.contains_key(name)
                    &&& toml_of(table[name]) == Err::<TomlTree, _>(message)
                    &&& forall|other: Seq<char>| #[trigger]
                        table.contains_key(other) && name_lt(other, name) ==> toml_of(
                            table[other],
                        ) is Ok
                },
        },
{
    let tree = ValueTree::Table(table);
    let names = sorted_names(table.dom());
    let children = toml_children(tree);
    lemma_sorted_names_list(table.dom());
    lemma_gathered(children);
    assert forall|i: int| 0 <= i < names.len() implies table.contains_key(#[trigger] names[i])
        && children[i] == toml_of(table[names[i]]) by {
        assert(names.contains(names[i]));
    }
    match gathered(children) {
        Ok(trees) => {
            let entries = named(names, trees);
            assert(toml_of(tree) == Ok::<_, Seq<char>>(TomlTree::InlineTable(entries)));
            assert forall|i: int| 0 <= i < entries.len() implies table.contains_key(
                (#[trigger] entries[i]).0,
            ) && toml_of(table[entries[i].0]) == Ok::<_, Seq<char>>(entries[i].1) by {
                assert(table.contains_key(names[i]));
                assert(children[i] == Ok::<TomlTree, Seq<char>>(trees[i]));
            }
            assert forall|name: Seq<char>| #[trigger] table.contains_key(name) implies exists|
                i: int,
            |
                0 <= i < entries.len() && (#[trigger] entries[i]).0 == name by {
                assert(names.contains(name));
                let i = choose|i: int| 0 <= i < names.len() && names[i] == name;
                assert(entries[i].0 == name);
            }
        },
        Err(message) => {
            let i = choose|i: int|
                {
                    &&& 0 <= i < children.len()
                    &&& #[trigger] children[i] == Err::<TomlTree, Seq<char>>(message)
                    &&& forall|j: int| 0 <= j < i ==> #[trigger] children[j] is Ok
                };
            let name = names[i];
            assert(table.contains_key(name));
            assert forall|other: Seq<char>| #[trigger]
                table.contains_key(other) && name_lt(other, name) implies toml_of(
                table[other],
            ) is Ok by {
                assert(names.contains(other));
                let j = choose|j: int| 0 <= j < names.len() && names[j] == other;
                lemma_name_lt_irreflexive(name);
                if j > i {
                    assert(name_lt(names[i], names[j]));
                    lemma_name_lt_transitive(name, other, name);
                }
                assert(children[j] is Ok);
            }
        },
    }
}

/// Reading a TOML value back gives the configuration value that it was made of, but for
/// how many bits its integers take.
pub proof fn law_toml_value_is_read_back(tree: ValueTree)
    requires
        has_finite_tables(tree),
    ensures
        toml_of(tree) matches Ok(toml) ==> same_value(value_of(toml), tree),
    decreases tree,
{
    if let Ok(toml) = toml_of(tree) {
        match tree {
            ValueTree::Array(values) => {
                law_array_is_converted_value_by_value(values);
                assert forall|i: int| 0 <= i < values.len() implies same_value(
                    #[trigger] value_of(toml)->Array_0[i],
                    values[i],
                ) by {
                    assert(toml_of(values[i]) is Ok);
                    law_toml_value_is_read_back(values[i]);
                }
            },
            ValueTree::Table(table) => {
                law_table_is_converted_name_by_name(table);
                let entries = toml->InlineTable_0;
                let read = value_of(toml)->Table_0;
                assert forall|name: Seq<char>| #[trigger] read.contains_key(name) implies same_value(
                    read[name],
                    table[name],
                ) by {
                    let i = choose|i: int|
                        0 <= i < entries.len() && (#[trigger] entries[i]).0 == name;
                    assert(table.contains_key(name));
                    law_toml_value_is_read_back(table[name]);
                }
                assert(read.dom() =~= table.dom());
            },
            _ => {},
        }
    }
}

/// Different configuration values become different TOML values.
pub proof fn law_different_values_differ_in_toml(a: ValueTree, b: ValueTree)
    requires
        has_finite_tables(a),
        has_finite_tables(b),
        toml_of(a) is Ok,
        toml_of(a) == toml_of(b),
    ensures
        same_value(a, b),
{
    let read = value_of(toml_of(a)->Ok_0);
    law_toml_value_is_read_back(a);
    law_toml_value_is_read_back(b);
    lemma_same_value(read, a, b);
}

/// Values that are the same as a third one are the same.
proof fn lemma_same_value(read: ValueTree, a: ValueTree, b: ValueTree)
    requires
        same_value(read, a),
        same_value(read, b),
    ensures
        same_value(a, b),
    decreases read,
{
    match read {
        ValueTree::Array(values) => {
            assert forall|i: int| 0 <= i < values.len() implies same_value(
                #[trigger] a->Array_0[i],
                b->Array_0[i],
            ) by {
                assert(same_value(values[i], a->Array_0[i]) && same_value(values[i], b->Array_0[i]));
                lemma_same_value(values[i], a->Array_0[i], b->Array_0[i]);
            }
        },
        ValueTree::Table(table) => {
            assert forall|name: Seq<char>| #[trigger]
                a->Table_0.contains_key(name) implies same_value(
                a->Table_0[name],
                b->Table_0[name],
            ) by {
                assert(table.contains_key(name));
                lemma_same_value(table[name], a->Table_0[name], b->Table_0[name]);
            }
        },
        _ => {},
    }
}

} // verus!
