//! The calls into the `toml_edit` crate, which reads and edits TOML documents.
use crate::config_crate::{bare_name, raw_tree};
use toml_edit::{DocumentMut, Entry, Item, Table, Value};
use vstd::prelude::*;

verus! {

/// A TOML value.
#[verifier::external_type_specification]
#[verifier::external_body]
pub struct ExTomlValue(toml_edit::Value);

/// A table of a TOML document.
#[verifier::external_type_specification]
#[verifier::external_body]
pub struct ExTomlTable(toml_edit::Table);

/// What a table of a TOML document holds under a name.
#[verifier::external_type_specification]
#[verifier::external_body]
pub struct ExTomlItem(toml_edit::Item);

/// A TOML document.
#[verifier::external_type_specification]
#[verifier::external_body]
pub struct ExTomlDocument(toml_edit::DocumentMut);

/// An error in a TOML text.
#[verifier::external_type_specification]
#[verifier::external_body]
pub struct ExTomlError(toml_edit::TomlError);

/// A TOML value as a mathematical tree, without its formatting. A
/// floating-point number is its IEEE 754 bit pattern, and a date is its text.
pub enum TomlTree {
    String(Seq<char>),
    Integer(i64),
    Float(u64),
    Boolean(bool),
    Datetime(Seq<char>),
    Array(Seq<TomlTree>),
    InlineTable(Seq<(Seq<char>, TomlTree)>),
}

/// What a table holds under a name, as a mathematical tree, without comments
/// and formatting.
pub enum ItemTree {
    Nothing,
    Value(TomlTree),
    Table(Map<Seq<char>, ItemTree>),
    ArrayOfTables(Seq<Map<Seq<char>, ItemTree>>),
}

/// How a table is written.
pub struct TableLayout {
    /// The comments and blanks at its header, whether it has a header, and where in the
    /// document it stands. This is empty for a table that was just made.
    pub header: Seq<char>,
    /// Its names, in the order in which they are written.
    pub order: Seq<Seq<char>>,
    /// How its entries are written.
    pub entries: Map<Seq<char>, EntryLayout>,
}

/// How an entry of a table is written.
pub struct EntryLayout {
    /// The name, with its quotes, comments and blanks.
    pub key: Seq<char>,
    pub item: ItemLayout,
}

/// How what a table holds under a name is written.
pub enum ItemLayout {
    Nothing,
    /// A value, with its comments and blanks.
    Value(Seq<char>),
    Table(TableLayout),
    ArrayOfTables(Seq<TableLayout>),
}

/// How a document is written.
pub struct DocumentLayout {
    pub root: TableLayout,
    /// What stands behind the last entry.
    pub trailing: Seq<char>,
}

/// How a table is written that was just made.
pub open spec fn new_table_layout() -> TableLayout {
    TableLayout { header: Seq::empty(), order: Seq::empty(), entries: Map::empty() }
}

/// The table with another item under a name. A new name comes last, and is written as
/// it is displayed. All other entries stay as they are.
pub open spec fn with_item(layout: TableLayout, name: Seq<char>, item: ItemLayout) -> TableLayout {
    if layout.entries.contains_key(name) {
        TableLayout {
            entries: layout.entries.insert(
                name,
                EntryLayout { key: layout.entries[name].key, item },
            ),
            ..layout
        }
    } else {
        TableLayout {
            order: layout.order.push(name),
            entries: layout.entries.insert(name, EntryLayout { key: key_text(name), item }),
            ..layout
        }
    }
}

/// The table without an entry. All other entries stay as they are.
pub open spec fn without_entry(layout: TableLayout, name: Seq<char>) -> TableLayout {
    TableLayout {
        order: layout.order.filter(|other: Seq<char>| other != name),
        entries: layout.entries.remove(name),
        ..layout
    }
}

/// What a table of a document holds.
pub type Items = Map<Seq<char>, ItemTree>;

/// The tree of a TOML value.
pub uninterp spec fn toml_tree(value: toml_edit::Value) -> TomlTree;

/// The tree of what a table holds under a name.
pub uninterp spec fn item_tree(item: toml_edit::Item) -> ItemTree;

/// What a table of a document holds.
pub uninterp spec fn table_items(table: toml_edit::Table) -> Map<Seq<char>, ItemTree>;

/// The tree of the root of a document.
pub uninterp spec fn document_tree(document: toml_edit::DocumentMut) -> ItemTree;

/// How a value is written.
pub uninterp spec fn value_layout(value: toml_edit::Value) -> Seq<char>;

/// How what a table holds under a name is written.
pub uninterp spec fn item_layout(item: toml_edit::Item) -> ItemLayout;

/// How a table of a document is written.
pub uninterp spec fn table_layout(table: toml_edit::Table) -> TableLayout;

/// How a document is written.
pub uninterp spec fn document_layout(document: toml_edit::DocumentMut) -> DocumentLayout;

/// The text of a document that is written in a certain way.
pub uninterp spec fn layout_text(layout: DocumentLayout) -> Seq<char>;

/// How the document is written that `str::parse` reads from a text.
pub uninterp spec fn parsed_layout(text: Seq<char>) -> DocumentLayout;

/// The message of an error in a TOML text.
pub uninterp spec fn toml_error_text(error: toml_edit::TomlError) -> Seq<char>;

/// The value that `str::parse` reads from a TOML value expression, if the text
/// is one.
pub uninterp spec fn parsed_value(text: Seq<char>) -> Option<TomlTree>;

/// The root table that `str::parse` reads from a TOML document, or the message
/// of the error that it reports.
pub uninterp spec fn parsed_document(text: Seq<char>) -> Result<
    Map<Seq<char>, ItemTree>,
    Seq<char>,
>;

/// The names that `toml_edit::Key::parse` reads from a text, each with the text that it
/// is displayed as, or the message of the error that it reports.
pub uninterp spec fn parsed_keys(text: Seq<char>) -> Result<
    Seq<(Seq<char>, Seq<char>)>,
    Seq<char>,
>;

/// The text that `toml_edit::Key` displays a name as.
pub uninterp spec fn key_text(name: Seq<char>) -> Seq<char>;

/// What a table holds under a name, by its kind.
#[derive(Clone, Copy, Debug, PartialEq, Eq, Structural)]
pub enum ItemKind {
    Nothing,
    Value,
    Table,
    ArrayOfTables,
}

/// The kind of what a table holds under a name.
pub open spec fn kind_of(tree: ItemTree) -> ItemKind {
    match tree {
        ItemTree::Nothing => ItemKind::Nothing,
        ItemTree::Value(_) => ItemKind::Value,
        ItemTree::Table(_) => ItemKind::Table,
        ItemTree::ArrayOfTables(_) => ItemKind::ArrayOfTables,
    }
}

/// `str::parse` of a TOML value expression.
#[verifier::external_body]
pub(crate) fn parse_value(text: &str) -> (value: Option<Value>)
    ensures
        match value {
            Some(value) => parsed_value(text@) == Some(toml_tree(value)),
            None => parsed_value(text@) is None,
        },
{
    text.parse().ok()
}

/// `toml_edit::Value::from` of a string.
#[verifier::external_body]
pub(crate) fn string_value(text: &str) -> (value: Value)
    ensures
        toml_tree(value) == TomlTree::String(text@),
{
    Value::from(text)
}

/// `toml_edit::Value::from` of a truth value.
#[verifier::external_body]
pub(crate) fn boolean_value(v: bool) -> (value: Value)
    ensures
        toml_tree(value) == TomlTree::Boolean(v),
{
    Value::from(v)
}

/// `toml_edit::Value::from` of an integer.
#[verifier::external_body]
pub(crate) fn integer_value(v: i64) -> (value: Value)
    ensures
        toml_tree(value) == TomlTree::Integer(v),
{
    Value::from(v)
}

/// `toml_edit::Value::from` of the floating-point number that a value of the
/// `config` crate holds: the number has the same bits.
#[verifier::external_body]
pub(crate) fn float_value(v: &config::Value) -> (value: Value)
    requires
        raw_tree(*v) is Float,
    ensures
        toml_tree(value) == TomlTree::Float(raw_tree(*v)->Float_0),
{
    Value::from(v.clone().into_float().unwrap())
}

/// `toml_edit::Value::from_iter` of values: the array holds the values in their
/// order.
#[verifier::external_body]
pub(crate) fn array_value(values: Vec<Value>) -> (value: Value)
    ensures
        toml_tree(value) == TomlTree::Array(values@.map_values(|v: Value| toml_tree(v))),
{
    Value::from_iter(values)
}

/// The names and values of an inline table.
pub open spec fn inline_entries(entries: Seq<(String, Value)>) -> Seq<(Seq<char>, TomlTree)> {
    entries.map_values(|entry: (String, Value)| (entry.0@, toml_tree(entry.1)))
}

/// `toml_edit::Value::from_iter` of named values, where no name occurs twice:
/// the inline table holds the entries in their order.
#[verifier::external_body]
pub(crate) fn inline_table_value(entries: Vec<(String, Value)>) -> (value: Value)
    requires
        forall|i: int, j: int|
            0 <= i < j < entries@.len() ==> (#[trigger] entries@[i]).0@ != (
            #[trigger] entries@[j]).0@,
    ensures
        toml_tree(value) == TomlTree::InlineTable(inline_entries(entries@)),
{
    Value::from_iter(entries)
}

/// `str::parse` of a TOML document, whose root is a table, and which stays written as
/// it is in the text. The empty text is an empty document.
#[verifier::external_body]
pub(crate) fn parse_document(text: &str) -> (document: Result<DocumentMut, toml_edit::TomlError>)
    ensures
        match document {
            Ok(document) => {
                &&& parsed_document(text@) matches Ok(items)
                &&& document_tree(document) == ItemTree::Table(items)
                &&& document_layout(document) == parsed_layout(text@)
            },
            Err(error) => parsed_document(text@) == Err::<Items, Seq<char>>(
                toml_error_text(error),
            ),
        },
        text@.len() == 0 ==> (document matches Ok(document) && document_tree(document)
            == ItemTree::Table(Map::empty())),
{
    text.parse()
}

/// The message that a `toml_edit::TomlError` displays.
#[verifier::external_body]
pub(crate) fn toml_error_message(error: &toml_edit::TomlError) -> (text: String)
    ensures
        text@ == toml_error_text(*error),
{
    error.to_string()
}

/// The text that a `toml_edit::DocumentMut` whose root is a table displays.
#[verifier::external_body]
pub(crate) fn render_document(document: &DocumentMut) -> (text: String)
    requires
        document_tree(*document) is Table,
    ensures
        text@ == layout_text(document_layout(*document)),
{
    document.to_string()
}

/// `toml_edit::DocumentMut::as_table_mut`: the root table, through which the
/// document is changed.
#[verifier::external_body]
pub(crate) fn root_table(document: &mut DocumentMut) -> (table: &mut Table)
    requires
        document_tree(*old(document)) is Table,
    ensures
        document_tree(*old(document)) == ItemTree::Table(table_items(*table)),
        document_tree(*final(document)) == ItemTree::Table(table_items(*final(table))),
        document_layout(*old(document)).root == table_layout(*table),
        document_layout(*final(document)) == (DocumentLayout {
            root: table_layout(*final(table)),
            ..document_layout(*old(document))
        }),
{
    document.as_table_mut()
}

/// `toml_edit::Item::as_table_mut`: the table that the item is, through which
/// the item is changed.
#[verifier::external_body]
pub(crate) fn item_as_table_mut(item: &mut Item) -> (table: Option<&mut Table>)
    ensures
        match table {
            Some(table) => {
                &&& item_tree(*old(item)) == ItemTree::Table(table_items(*table))
                &&& item_tree(*final(item)) == ItemTree::Table(table_items(*final(table)))
                &&& item_layout(*old(item)) == ItemLayout::Table(table_layout(*table))
                &&& item_layout(*final(item)) == ItemLayout::Table(table_layout(*final(table)))
            },
            None => {
                &&& !(item_tree(*old(item)) is Table)
                &&& !(item_layout(*old(item)) is Table)
                &&& item_tree(*final(item)) == item_tree(*old(item))
                &&& item_layout(*final(item)) == item_layout(*old(item))
            },
        },
{
    item.as_table_mut()
}

/// The variant of a `toml_edit::Item`.
#[verifier::external_body]
pub(crate) fn item_kind(item: &Item) -> (kind: ItemKind)
    ensures
        kind == kind_of(item_tree(*item)),
{
    match item {
        Item::None => ItemKind::Nothing,
        Item::Value(_) => ItemKind::Value,
        Item::Table(_) => ItemKind::Table,
        Item::ArrayOfTables(_) => ItemKind::ArrayOfTables,
    }
}

/// `toml_edit::Table::get`: what the table holds under a name, where the item
/// that stands for nothing counts as missing.
#[verifier::external_body]
pub(crate) fn table_get<'a>(table: &'a Table, key: &str) -> (item: Option<&'a Item>)
    ensures
        match item {
            Some(item) => {
                &&& table_items(*table).contains_key(key@)
                &&& table_items(*table)[key@] == item_tree(*item)
                &&& !(item_tree(*item) is Nothing)
            },
            None => table_items(*table).contains_key(key@) ==> table_items(*table)[key@] is Nothing,
        },
{
    table.get(key)
}

/// `toml_edit::Table::get_mut`: what the table holds under a name, through which
/// the table is changed. The item that stands for nothing counts as missing.
#[verifier::external_body]
pub(crate) fn table_get_mut<'a>(table: &'a mut Table, key: &str) -> (item: Option<&'a mut Item>)
    ensures
        match item {
            Some(item) => {
                &&& table_items(*old(table)).contains_key(key@)
                &&& table_items(*old(table))[key@] == item_tree(*item)
                &&& !(item_tree(*item) is Nothing)
                &&& table_items(*final(table)) == table_items(*old(table)).insert(
                    key@,
                    item_tree(*final(item)),
                )
                &&& table_layout(*old(table)).entries.contains_key(key@)
                &&& table_layout(*old(table)).entries[key@].item == item_layout(*item)
                &&& table_layout(*final(table)) == with_item(
                    table_layout(*old(table)),
                    key@,
                    item_layout(*final(item)),
                )
            },
            None => {
                &&& table_items(*old(table)).contains_key(key@) ==> table_items(
                    *old(table),
                )[key@] is Nothing
                &&& table_items(*final(table)) == table_items(*old(table))
                &&& table_layout(*final(table)) == table_layout(*old(table))
            },
        },
{
    table.get_mut(key)
}

/// `toml_edit::Table::entry`, then `Entry::or_insert_with` of an empty table:
/// what the table holds under a name, which is an empty table if there was
/// nothing. The table is changed through it.
#[verifier::external_body]
pub(crate) fn entry_or_table<'a>(table: &'a mut Table, key: &str) -> (item: &'a mut Item)
    ensures
        item_tree(*item) == (if table_items(*old(table)).contains_key(key@) {
            table_items(*old(table))[key@]
        } else {
            ItemTree::Table(Map::empty())
        }),
        table_items(*final(table)) == table_items(*old(table)).insert(
            key@,
            item_tree(*final(item)),
        ),
        item_layout(*item) == (if table_items(*old(table)).contains_key(key@) {
            table_layout(*old(table)).entries[key@].item
        } else {
            ItemLayout::Table(new_table_layout())
        }),
        table_layout(*old(table)).entries.contains_key(key@) == table_items(
            *old(table),
        ).contains_key(key@),
        table_layout(*final(table)) == with_item(
            table_layout(*old(table)),
            key@,
            item_layout(*final(item)),
        ),
{
    table.entry(key).or_insert_with(|| Item::Table(Table::new()))
}

/// `toml_edit::Table::entry`: what the table holds under a name, through which
/// the table is changed.
#[verifier::external_body]
pub(crate) fn occupied_entry<'a>(table: &'a mut Table, key: &str) -> (item: Option<&'a mut Item>)
    ensures
        match item {
            Some(item) => {
                &&& table_items(*old(table)).contains_key(key@)
                &&& table_items(*old(table))[key@] == item_tree(*item)
                &&& table_items(*final(table)) == table_items(*old(table)).insert(
                    key@,
                    item_tree(*final(item)),
                )
                &&& table_layout(*old(table)).entries.contains_key(key@)
                &&& table_layout(*old(table)).entries[key@].item == item_layout(*item)
                &&& table_layout(*final(table)) == with_item(
                    table_layout(*old(table)),
                    key@,
                    item_layout(*final(item)),
                )
            },
            None => {
                &&& !table_items(*old(table)).contains_key(key@)
                &&& table_items(*final(table)) == table_items(*old(table))
                &&& table_layout(*final(table)) == table_layout(*old(table))
            },
        },
{
    match table.entry(key) {
        Entry::Occupied(entry) => Some(entry.into_mut()),
        Entry::Vacant(_) => None,
    }
}

/// Assignment to an indexed `toml_edit::Table`: the table holds the value under
/// the name, and stays written as it is otherwise.
#[verifier::external_body]
pub(crate) fn table_set(table: &mut Table, key: &str, value: Value)
    ensures
        table_items(*final(table)) == table_items(*old(table)).insert(
            key@,
            ItemTree::Value(toml_tree(value)),
        ),
        table_layout(*final(table)) == with_item(
            table_layout(*old(table)),
            key@,
            ItemLayout::Value(value_layout(value)),
        ),
{
    table[key] = Item::Value(value);
}

/// `toml_edit::Table::remove`: the table holds nothing under the name, and stays
/// written as it is otherwise.
#[verifier::external_body]
pub(crate) fn table_remove(table: &mut Table, key: &str)
    ensures
        table_items(*final(table)) == table_items(*old(table)).remove(key@),
        table_layout(*final(table)) == without_entry(table_layout(*old(table)), key@),
{
    table.remove(key);
}

/// The names of a list and the texts that they are displayed as.
pub open spec fn key_views(keys: Seq<(String, String)>) -> Seq<(Seq<char>, Seq<char>)> {
    keys.map_values(|key: (String, String)| (key.0@, key.1@))
}

/// `toml_edit::Key::parse` of names with dots between them: the names, and the texts
/// that they are displayed as. There is at least one, and a bare name is read as itself.
#[verifier::external_body]
pub(crate) fn parse_keys(text: &str) -> (keys: Result<Vec<(String, String)>, toml_edit::TomlError>)
    ensures
        match keys {
            Ok(keys) => {
                &&& parsed_keys(text@) == Ok::<_, Seq<char>>(key_views(keys@))
                &&& keys.len() > 0
            },
            Err(error) => parsed_keys(text@) == Err::<Seq<(Seq<char>, Seq<char>)>, _>(
                toml_error_text(error),
            ),
        },
        bare_name(text@) ==> keys is Ok && key_views(keys->Ok_0@) == seq![(text@, text@)],
{
    let keys = toml_edit::Key::parse(text)?;
    Ok(keys.iter().map(|key| (key.get().to_owned(), key.to_string())).collect())
}

/// The text that `toml_edit::Key` displays. A bare name is displayed as it is.
#[verifier::external_body]
pub(crate) fn display_key(name: &str) -> (text: String)
    ensures
        text@ == key_text(name@),
        bare_name(name@) ==> text@ == name@,
{
    toml_edit::Key::new(name).to_string()
}

} // verus!
