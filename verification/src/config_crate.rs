//! The calls into the `config` crate, which parses and merges configurations.
use crate::error::{ConfigFailure, ConfigFailureText};
use crate::name_path::texts;
use crate::overlay::{
    clear, entry_onto, law_order_of_names_does_not_matter, law_settled_tables_are_overlaid,
    lemma_merged_tables, merged_entries, merged_tables, set_over_all, settled,
};
use crate::path_name::{lemma_own_entry, out_of_range, path_steps, root_of, wild_name, Step};
use crate::value::{
    entries_tree, held, overlaid_all, values_tree, well_formed, ConfigEntry, ConfigValue, ValueTree,
};
use config::Source;
use config::ValueKind;
use vstd::prelude::*;

verus! {

/// A configuration of the `config` crate.
#[verifier::external_type_specification]
#[verifier::external_body]
pub struct ExConfig(config::Config);

/// A value of the `config` crate.
#[verifier::external_type_specification]
#[verifier::external_body]
pub struct ExValue(config::Value);

/// An error of the `config` crate.
#[verifier::external_type_specification]
#[verifier::external_body]
pub struct ExConfigError(config::ConfigError);

/// A table as a mathematical map.
pub type TreeTable = Map<Seq<char>, ValueTree>;

/// A table, or the message of the error that stands in its place.
pub type TableResult = Result<TreeTable, Seq<char>>;

/// The texts of variables, by section and name.
pub type Variables = Map<(Seq<char>, Seq<char>), Seq<char>>;

/// What a configuration holds.
pub uninterp spec fn config_tree(config: config::Config) -> ValueTree;

/// What a value of the `config` crate holds.
pub uninterp spec fn raw_tree(value: config::Value) -> ValueTree;

/// The message of an error of the `config` crate.
pub uninterp spec fn error_text(error: config::ConfigError) -> Seq<char>;

/// The table that `config::File::from_str` reads from a TOML text, or the
/// message of the error that it reports.
pub uninterp spec fn toml_table(text: Seq<char>) -> TableResult;

/// The message of the error that `config::Source::collect` reports of a
/// configuration that does not hold a table.
pub uninterp spec fn collect_error(config: config::Config) -> Seq<char>;

/// The configuration is what the `config` crate makes of the tables, the first one
/// lowest.
pub open spec fn merges(tables: Seq<TreeTable>, config: config::Config) -> bool {
    &&& config_tree(config) is Table
    &&& set_over_all(tables, config_tree(config)->Table_0)
    &&& merged_entries(tables, config_tree(config)->Table_0)
    &&& merged_tables(tables, config_tree(config)->Table_0)
}

/// A value of the `config` crate, opened: what stands at its top as plain
/// values, and the values below it as they are.
pub enum ValueNode {
    Nil,
    Boolean(bool),
    I64(i64),
    I128(i128),
    U64(u64),
    U128(u128),
    Float(config::Value),
    String(String),
    Table(Vec<(String, config::Value)>),
    Array(Vec<config::Value>),
}

/// A floating-point number, as the `config` crate holds it.
#[derive(Debug, PartialEq)]
pub struct FloatValue {
    raw: config::Value,
}

impl View for FloatValue {
    type V = u64;

    closed spec fn view(&self) -> u64 {
        raw_tree(self.raw)->Float_0
    }
}

impl FloatValue {
    #[verifier::type_invariant]
    closed spec fn is_number(self) -> bool {
        raw_tree(self.raw) is Float
    }

    /// A copy of the number.
    pub fn duplicate(&self) -> (copy: FloatValue)
        ensures
            copy@ == self@,
    {
        proof {
            use_type_invariant(self);
        }
        FloatValue { raw: clone_value(&self.raw) }
    }

    /// The value of the `config` crate that holds the number.
    pub fn raw(&self) -> (raw: &config::Value)
        ensures
            raw_tree(*raw) == ValueTree::Float(self@),
    {
        proof {
            use_type_invariant(self);
        }
        &self.raw
    }
}

/// `config::Value::clone`: the copy holds what the value holds.
#[verifier::external_body]
fn clone_value(value: &config::Value) -> (copy: config::Value)
    ensures
        raw_tree(copy) == raw_tree(*value),
{
    value.clone()
}

/// `config::Config::clone`: the copy holds what the configuration holds.
#[verifier::external_body]
pub(crate) fn clone_config(config: &config::Config) -> (copy: config::Config)
    ensures
        config_tree(copy) == config_tree(*config),
{
    config.clone()
}

/// The table that named values of the `config` crate make up.
pub open spec fn raw_table(entries: Seq<(String, config::Value)>) -> TreeTable
    decreases entries.len(),
{
    if entries.len() == 0 {
        Map::empty()
    } else {
        raw_table(entries.drop_last()).insert(entries.last().0@, raw_tree(entries.last().1))
    }
}

/// The names of the entries differ.
pub open spec fn distinct_names(entries: Seq<(String, config::Value)>) -> bool {
    forall|i: int, j: int|
        0 <= i < j < entries.len() ==> (#[trigger] entries[i]).0@ != (#[trigger] entries[j]).0@
}

/// The tree of an opened value.
pub open spec fn node_tree(node: ValueNode) -> ValueTree {
    match node {
        ValueNode::Nil => ValueTree::Nil,
        ValueNode::Boolean(v) => ValueTree::Boolean(v),
        ValueNode::I64(v) => ValueTree::I64(v),
        ValueNode::I128(v) => ValueTree::I128(v),
        ValueNode::U64(v) => ValueTree::U64(v),
        ValueNode::U128(v) => ValueTree::U128(v),
        ValueNode::Float(v) => raw_tree(v),
        ValueNode::String(v) => ValueTree::String(v@),
        ValueNode::Table(entries) => ValueTree::Table(raw_table(entries@)),
        ValueNode::Array(values) => ValueTree::Array(
            values@.map_values(|value: config::Value| raw_tree(value)),
        ),
    }
}

/// The `kind` of a `config::Value`: the node holds what the value holds, and a
/// table holds no name twice.
#[verifier::external_body]
fn open_value(value: config::Value) -> (node: ValueNode)
    ensures
        node_tree(node) == raw_tree(value),
        node matches ValueNode::Table(entries) ==> distinct_names(entries@),
        node matches ValueNode::Float(v) ==> raw_tree(v) is Float,
{
    match value.kind {
        ValueKind::Nil => ValueNode::Nil,
        ValueKind::Boolean(v) => ValueNode::Boolean(v),
        ValueKind::I64(v) => ValueNode::I64(v),
        ValueKind::I128(v) => ValueNode::I128(v),
        ValueKind::U64(v) => ValueNode::U64(v),
        ValueKind::U128(v) => ValueNode::U128(v),
        ValueKind::Float(v) => ValueNode::Float(config::Value::new(None, v)),
        ValueKind::String(v) => ValueNode::String(v),
        ValueKind::Table(v) => ValueNode::Table(v.into_iter().collect()),
        ValueKind::Array(v) => ValueNode::Array(v),
    }
}

/// `config::Source::collect` of a configuration: its table, if a table is what
/// it holds, and an error if not.
#[verifier::external_body]
fn collect(config: &config::Config) -> (table: Result<
    Vec<(String, config::Value)>,
    config::ConfigError,
>)
    ensures
        match table {
            Ok(entries) => {
                &&& config_tree(*config) == ValueTree::Table(raw_table(entries@))
                &&& distinct_names(entries@)
            },
            Err(error) => !(config_tree(*config) is Table) && error_text(error) == collect_error(
                *config,
            ),
        },
{
    config.collect().map(|table| table.into_iter().collect())
}

/// The message that a `config::ConfigError` displays.
#[verifier::external_body]
fn error_message(error: &config::ConfigError) -> (text: String)
    ensures
        text@ == error_text(*error),
{
    error.to_string()
}

/// An error of the `config` crate as one of the library.
pub fn foreign_error(error: config::ConfigError) -> (converted: ConfigFailure)
    ensures
        converted@ == ConfigFailureText::Foreign(error_text(error)),
{
    ConfigFailure::Foreign(error_message(&error))
}

/// Reads a value of the `config` crate.
pub fn read_value(value: config::Value) -> (read: ConfigValue)
    ensures
        read@ == raw_tree(value),
        well_formed(read),
    decreases raw_tree(value),
{
    let ghost tree = raw_tree(value);
    match open_value(value) {
        ValueNode::Nil => ConfigValue::Nil,
        ValueNode::Boolean(v) => ConfigValue::Boolean(v),
        ValueNode::I64(v) => ConfigValue::I64(v),
        ValueNode::I128(v) => ConfigValue::I128(v),
        ValueNode::U64(v) => ConfigValue::U64(v),
        ValueNode::U128(v) => ConfigValue::U128(v),
        ValueNode::Float(v) => ConfigValue::Float(FloatValue { raw: v }),
        ValueNode::String(v) => ConfigValue::String(v),
        ValueNode::Table(entries) => {
            proof {
                assert(decreases_to!(tree => tree->Table_0));
            }
            ConfigValue::Table(read_entries(entries))
        },
        ValueNode::Array(values) => {
            let ghost all = values@;
            let mut rest = values;
            let mut read: Vec<ConfigValue> = Vec::new();
            while rest.len() > 0
                invariant
                    rest@ == all.skip(read.len() as int),
                    read.len() + rest.len() == all.len(),
                    tree == raw_tree(value),
                    tree == ValueTree::Array(all.map_values(|value: config::Value| raw_tree(value))),
                    values_tree(read@) == all.take(read.len() as int).map_values(
                        |value: config::Value| raw_tree(value),
                    ),
                    forall|j: int| 0 <= j < read.len() ==> well_formed(#[trigger] read@[j]),
                decreases rest.len(),
            {
                let ghost n = read.len() as int;
                let ghost before = read@;
                let first = rest.remove(0);
                proof {
                    assert(first == all[n]);
                    assert(decreases_to!(tree => tree->Array_0));
                    assert(decreases_to!(tree->Array_0 => tree->Array_0[n]));
                }
                read.push(read_value(first));
                assert(read@.drop_last() =~= before);
                assert(values_tree(read@) =~= all.take(n + 1).map_values(
                    |value: config::Value| raw_tree(value),
                ));
                assert(rest@ =~= all.skip(n + 1));
            }
            assert(all.take(read.len() as int) =~= all);
            ConfigValue::Array(read)
        },
    }
}

proof fn lemma_raw_table(entries: Seq<(String, config::Value)>)
    requires
        distinct_names(entries),
    ensures
        raw_table(entries).dom().finite(),
        forall|i: int|
            0 <= i < entries.len() ==> raw_table(entries).contains_key((#[trigger] entries[i]).0@)
                && raw_table(entries)[entries[i].0@] == raw_tree(entries[i].1),
    decreases entries.len(),
{
    if entries.len() > 0 {
        let front = entries.drop_last();
        assert(forall|i: int| 0 <= i < front.len() ==> #[trigger] front[i] == entries[i]);
        lemma_raw_table(front);
        assert forall|i: int| 0 <= i < entries.len() implies raw_table(entries).contains_key(
            (#[trigger] entries[i]).0@,
        ) && raw_table(entries)[entries[i].0@] == raw_tree(entries[i].1) by {
            if i < front.len() {
                assert(front[i] == entries[i]);
                assert(entries[i].0@ != entries[front.len() as int].0@);
            }
        }
    }
}

/// Reads the named values of a table of the `config` crate.
fn read_entries(entries: Vec<(String, config::Value)>) -> (read: Vec<ConfigEntry>)
    requires
        distinct_names(entries@),
    ensures
        entries_tree(read@) == raw_table(entries@),
        well_formed(ConfigValue::Table(read)),
    decreases raw_table(entries@),
{
    let ghost all = entries@;
    let mut rest = entries;
    proof {
        lemma_raw_table(all);
    }
    let mut read: Vec<ConfigEntry> = Vec::new();
    while rest.len() > 0
        invariant
            rest@ == all.skip(read.len() as int),
            read.len() + rest.len() == all.len(),
            all == entries@,
            raw_table(all).dom().finite(),
            forall|j: int|
                0 <= j < all.len() ==> raw_table(all).contains_key((#[trigger] all[j]).0@)
                    && raw_table(all)[all[j].0@] == raw_tree(all[j].1),
            distinct_names(all),
            entries_tree(read@) == raw_table(all.take(read.len() as int)),
            forall|j: int|
                0 <= j < read.len() ==> (#[trigger] read@[j]).key@ == all[j].0@ && well_formed(
                    read@[j].value,
                ),
        decreases rest.len(),
    {
        let ghost n = read.len() as int;
        let ghost before = read@;
        let (key, value) = rest.remove(0);
        assert(all[n] == (key, value));
        proof {
            assert(decreases_to!(raw_table(all) => raw_table(all)[key@]));
        }
        read.push(ConfigEntry { key, value: read_value(value) });
        assert(read@.drop_last() =~= before);
        assert(all.take(n + 1).drop_last() =~= all.take(n));
        assert(rest@ =~= all.skip(n + 1));
    }
    assert(all.take(read.len() as int) =~= all);
    read
}

/// What a configuration holds, read into a value of the library.
pub fn read_config_table(config: &config::Config) -> (read: Result<ConfigValue, ConfigFailure>)
    ensures
        match read {
            Ok(value) => {
                &&& value@ == config_tree(*config)
                &&& value@ is Table
                &&& well_formed(value)
            },
            Err(error) => {
                &&& !(config_tree(*config) is Table)
                &&& error@ == ConfigFailureText::Foreign(collect_error(*config))
            },
        },
{
    match collect(config) {
        Ok(entries) => Ok(ConfigValue::Table(read_entries(entries))),
        Err(error) => Err(foreign_error(error)),
    }
}

/// The names at the top of the table that `config::File::from_str` followed by
/// `config::Source::collect` reads from a TOML text, or the error that they
/// report.
#[verifier::external_body]
pub(crate) fn toml_names(text: &str) -> (names: Result<Vec<String>, config::ConfigError>)
    ensures
        match names {
            Ok(names) => toml_table(text@) matches Ok(table) && forall|name: Seq<char>| #[trigger]
                table.contains_key(name) <==> texts(names@).contains(name),
            Err(error) => toml_table(text@) == TableResult::Err(error_text(error)),
        },
{
    let file = config::File::from_str(text, config::FileFormat::Toml);
    file.collect().map(|table| table.into_keys().collect())
}

/// A `config::ConfigBuilder`: configurations to be merged, and single variables
/// to be set on top of them.
#[verifier::external_body]
pub struct ConfigStack {
    inner: config::ConfigBuilder<config::builder::DefaultState>,
}

/// The tables of the configurations on a stack, the lowest first. A text that
/// is not TOML stands there as the message of the error that it gives.
pub uninterp spec fn stack_tables(stack: ConfigStack) -> Seq<
    TableResult,
>;

/// The variables to be set on top of a stack, by section and name.
pub uninterp spec fn stack_overrides(stack: ConfigStack) -> Variables;

/// No name at the top of the table reads as a path with an index that is out of
/// range. The `config` crate panics where it takes such an index from the end of an
/// array that is not that long, or extends an array beyond what can be allocated.
pub open spec fn settable(table: TreeTable) -> bool {
    forall|name: Seq<char>| #[trigger] table.contains_key(name) ==> !wild_name(name)
}

/// The configuration holds a table that the `config` crate can merge.
pub open spec fn mergeable(config: config::Config) -> bool {
    config_tree(config) is Table && settable(config_tree(config)->Table_0)
}

/// A configuration whose names lead to their own entries can be merged.
pub proof fn lemma_settled_mergeable(config: config::Config)
    requires
        config_tree(config) is Table,
        settled(config_tree(config)->Table_0),
    ensures
        mergeable(config),
{
    let table = config_tree(config)->Table_0;
    assert forall|name: Seq<char>| #[trigger] table.contains_key(name) implies !wild_name(name) by {
        lemma_own_entry(name);
    }
}

/// Tables without dots and brackets in their names are laid over each other.
pub proof fn lemma_plain_tables(tables: Seq<TreeTable>, config: config::Config)
    requires
        merges(tables, config),
        forall|j: int, name: Seq<char>|
            0 <= j < tables.len() && #[trigger] tables[j].contains_key(name) ==> !name.contains('.')
                && !name.contains('['),
    ensures
        config_tree(config) == ValueTree::Table(overlaid_all(tables)),
{
    assert forall|j: int| 0 <= j < tables.len() implies settled(#[trigger] tables[j]) by {
        assert forall|name: Seq<char>| #[trigger] tables[j].contains_key(name) implies root_of(name)
            == name by {
            lemma_own_entry(name);
        }
    }
    law_settled_tables_are_overlaid(tables, config_tree(config)->Table_0);
}

/// A letter, a digit, `_` or `-`, of ASCII.
pub open spec fn name_char(c: char) -> bool {
    ('a' <= c <= 'z') || ('A' <= c <= 'Z') || ('0' <= c <= '9') || c == '_' || c == '-'
}

/// A name that needs no quotes.
pub open spec fn bare_name(name: Seq<char>) -> bool {
    name.len() > 0 && forall|i: int| 0 <= i < name.len() ==> name_char(#[trigger] name[i])
}

/// The configuration that holds the given variables and nothing else.
pub open spec fn section_table(variables: Variables) -> TreeTable {
    Map::new(
        |section: Seq<char>| exists|name: Seq<char>| variables.contains_key((section, name)),
        |section: Seq<char>|
            ValueTree::Table(
                Map::new(
                    |name: Seq<char>| variables.contains_key((section, name)),
                    |name: Seq<char>| ValueTree::String(variables[(section, name)]),
                ),
            ),
    )
}

/// All texts on a stack are TOML.
pub open spec fn all_tables(tables: Seq<TableResult>) -> bool {
    forall|i: int| 0 <= i < tables.len() ==> #[trigger] tables[i] is Ok
}

/// The first error on a stack.
pub open spec fn first_error(
    tables: Seq<TableResult>,
    message: Seq<char>,
) -> bool {
    exists|i: int|
        {
            &&& 0 <= i < tables.len()
            &&& #[trigger] tables[i] == TableResult::Err(message)
            &&& all_tables(tables.take(i))
        }
}

/// What a step leads to, if it leads anywhere.
pub open spec fn step_value(value: Option<ValueTree>, step: Step) -> Option<ValueTree> {
    match (value, step) {
        (Some(ValueTree::Table(table)), Step::Name(name)) => held(table, name),
        (Some(ValueTree::Array(values)), Step::Index(index)) => {
            let place = if index < 0 {
                values.len() + index
            } else {
                index
            };
            if 0 <= place < values.len() {
                Some(values[place])
            } else {
                None
            }
        },
        _ => None,
    }
}

/// Every index among the steps is in range: an array can be extended up to one that is
/// not below zero, and one below zero counts from the end of an array that is there.
pub open spec fn steps_in_range(value: Option<ValueTree>, steps: Seq<Step>) -> bool
    decreases steps.len(),
{
    steps.len() > 0 ==> {
        &&& steps[0] matches Step::Index(index) ==> (!out_of_range(index) || (
        value matches Some(ValueTree::Array(values)) && isize::MIN < index < 0 && -index
            <= values.len()))
        &&& steps_in_range(step_value(value, steps[0]), steps.drop_first())
    }
}

/// The name leads to an entry that no other name of the table leads to, and at most one
/// name of each table below, and its indices are in range there.
pub open spec fn in_reach(lower: Seq<TreeTable>, table: TreeTable, name: Seq<char>) -> bool {
    &&& forall|other: Seq<char>| #[trigger]
        table.contains_key(other) && root_of(other) == root_of(name) ==> other == name
    &&& clear(lower, 0, root_of(name))
    &&& path_steps(name) matches Some(steps) && steps_in_range(
        entry_onto(None, lower, root_of(name)),
        steps,
    )
}

/// The tables can be merged: up to the first error, every name whose index could be out
/// of range is in reach of what lies below.
pub open spec fn buildable(tables: Seq<TableResult>) -> bool {
    forall|i: int, name: Seq<char>|
        0 <= i < tables.len() && all_tables(tables.take(i)) && tables[i] is Ok && #[trigger]
            tables[i]->Ok_0.contains_key(name) && wild_name(name) ==> in_reach(
            tables_of(tables.take(i)),
            tables[i]->Ok_0,
            name,
        )
}

/// No table holds a name whose index could be out of range.
pub open spec fn all_settable(tables: Seq<TableResult>) -> bool {
    forall|i: int|
        0 <= i < tables.len() ==> (#[trigger] tables[i] matches Ok(table) ==> settable(table))
}

/// The tables themselves.
pub open spec fn tables_of(tables: Seq<TableResult>) -> Seq<
    TreeTable,
> {
    tables.map_values(|table: TableResult| table->Ok_0)
}

impl ConfigStack {
    /// `config::Config::builder`: an empty stack.
    #[verifier::external_body]
    pub(crate) fn new() -> (stack: ConfigStack)
        ensures
            stack_tables(stack) == Seq::<TableResult>::empty(),
            stack_overrides(stack) == Variables::empty(),
    {
        ConfigStack { inner: config::Config::builder() }
    }

    /// `config::ConfigBuilder::add_source` of a TOML text: the text comes to
    /// stand on top of the others.
    #[verifier::external_body]
    pub(crate) fn add_toml(self, text: &str) -> (stack: ConfigStack)
        ensures
            stack_tables(stack) == stack_tables(self).push(toml_table(text@)),
            stack_overrides(stack) == stack_overrides(self),
    {
        let source = config::File::from_str(text, config::FileFormat::Toml);
        ConfigStack { inner: self.inner.add_source(source) }
    }

    /// `config::ConfigBuilder::add_source` of a configuration that holds a
    /// table: the configuration comes to stand on top of the others.
    #[verifier::external_body]
    pub(crate) fn add_config(self, config: &config::Config) -> (stack: ConfigStack)
        requires
            config_tree(*config) is Table,
        ensures
            stack_tables(stack) == stack_tables(self).push(Ok(config_tree(*config)->Table_0)),
            stack_overrides(stack) == stack_overrides(self),
    {
        ConfigStack { inner: self.inner.add_source(config.clone()) }
    }

    /// `config::ConfigBuilder::set_override` of the variable `section.name`,
    /// which replaces what was set for that variable before. The call fails on
    /// no name made of two bare names.
    #[verifier::external_body]
    pub(crate) fn set_override(self, section: &str, name: &str, value: &str) -> (stack: ConfigStack)
        requires
            bare_name(section@),
            bare_name(name@),
        ensures
            stack_tables(stack) == stack_tables(self),
            stack_overrides(stack) == stack_overrides(self).insert((section@, name@), value@),
    {
        let key = format!("{section}.{name}");
        ConfigStack { inner: self.inner.set_override(key, value).unwrap() }
    }

    /// `config::ConfigBuilder::build`. The call fails with the first error on
    /// the stack, and succeeds if there is none. Every name at the top of a table is
    /// set where it leads to, table by table: it touches the entry of the identifier
    /// that it starts with if it reads as a path, and its own entry if not. Without
    /// tables, the configuration holds the variables. The names of one table are set in
    /// the order in which a hash map is walked. Which order that is, is not stated.
    #[verifier::external_body]
    fn build_config(self) -> (config: Result<config::Config, config::ConfigError>)
        requires
            self.can_be_built(),
        ensures
            match config {
                Ok(config) => {
                    &&& all_tables(stack_tables(self))
                    &&& config_tree(config) is Table
                    &&& settled(config_tree(config)->Table_0)
                    &&& stack_overrides(self) == Variables::empty() ==> set_over_all(
                        tables_of(stack_tables(self)),
                        config_tree(config)->Table_0,
                    )
                    &&& stack_tables(self).len() == 0 ==> config_tree(config) == ValueTree::Table(
                        section_table(stack_overrides(self)),
                    )
                },
                Err(error) => first_error(stack_tables(self), error_text(error)),
            },
    {
        self.inner.build()
    }

    /// No table on the stack holds a name with an index that is out of range where the
    /// table is merged.
    pub open spec fn can_be_built(self) -> bool {
        buildable(stack_tables(self))
    }

    /// Builds the configuration of a stack.
    pub(crate) fn build(self) -> (config: Result<config::Config, config::ConfigError>)
        requires
            self.can_be_built(),
        ensures
            match config {
                Ok(config) => {
                    &&& all_tables(stack_tables(self))
                    &&& mergeable(config)
                    &&& settled(config_tree(config)->Table_0)
                    &&& stack_overrides(self) == Variables::empty() ==> merges(
                        tables_of(stack_tables(self)),
                        config,
                    )
                    &&& stack_tables(self).len() == 0 ==> config_tree(config) == ValueTree::Table(
                        section_table(stack_overrides(self)),
                    )
                },
                Err(error) => first_error(stack_tables(self), error_text(error)),
            },
    {
        let config = self.build_config();
        proof {
            if config is Ok {
                if stack_overrides(self) == Variables::empty() {
                    let tables = tables_of(stack_tables(self));
                    let merged = config_tree(config->Ok_0)->Table_0;
                    law_order_of_names_does_not_matter(tables, merged);
                    lemma_merged_tables(tables, merged);
                }
                lemma_settled_mergeable(config->Ok_0);
            }
        }
        config
    }
}

} // verus!
