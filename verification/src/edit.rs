//! Editing configuration files.
use crate::error::{CommandFailure, CommandFailureText, ConfigFailure, ConfigFailureText};
use crate::name_path::{
    lemma_as_many_shown, names, shown_texts, ConfigNamePathBuf, NameComponent,
};
use crate::toml_crate::{
    document_layout, document_tree, entry_or_table, item_as_table_mut, item_kind, layout_text,
    new_table_layout, occupied_entry, parse_document, parsed_document, parsed_layout,
    render_document, root_table, table_get, table_get_mut, table_items, table_layout, table_remove,
    table_set, toml_error_message, toml_tree, value_layout, with_item, without_entry,
    DocumentLayout, EntryLayout, ItemKind, ItemLayout, ItemTree, Items, TableLayout, TomlTree,
};
use toml_edit::{DocumentMut, Table, Value};
use vstd::prelude::*;
use vstd::string::StringExecFns;

verus! {

/// Names as they are displayed, with dots between them.
pub open spec fn dotted(shown: Seq<Seq<char>>) -> Seq<char>
    decreases shown.len(),
{
    if shown.len() == 0 {
        Seq::empty()
    } else if shown.len() == 1 {
        shown[0]
    } else {
        dotted(shown.drop_last()) + "."@ + shown.last()
    }
}

/// Displays a path, with dots between the names.
pub fn display_path(path: &ConfigNamePathBuf) -> (text: String)
    ensures
        text@ == dotted(path.shown()),
{
    let components = path.components();
    let ghost shown = path.shown();
    let mut text = String::new();
    let mut i: usize = 0;
    assert(shown.take(0) =~= Seq::empty());
    while i < components.len()
        invariant
            i <= components.len(),
            shown_texts(components@) == shown,
            text@ == dotted(shown.take(i as int)),
        decreases components.len() - i,
    {
        let ghost before = text@;
        assert(shown.take(i + 1).drop_last() =~= shown.take(i as int));
        assert(shown.take(i + 1).last() == components@[i as int].shown());
        if i > 0 {
            text.append(".");
        }
        text.append(components[i].display().as_str());
        proof {
            if i == 0 {
                assert(text@ =~= shown[0]);
                assert(shown.take(1)[0] == shown[0]);
            } else {
                assert(text@ =~= before + "."@ + shown[i as int]);
            }
        }
        i += 1;
    }
    assert(shown.take(i as int) =~= shown);
    text
}

/// Why a value cannot be set.
#[derive(Clone, Copy, Debug, PartialEq, Eq, Structural)]
pub enum SetError {
    /// A name on the way to the value holds something that is not a table.
    ParentNotTable,
    /// The name holds tables.
    OverwritesTable,
}

/// The table `items` with the value at `path` set. Tables on the way that are
/// missing are made.
pub open spec fn set_in(items: Items, path: Seq<Seq<char>>, value: TomlTree) -> Result<
    Items,
    SetError,
>
    decreases path.len(),
{
    let name = path[0];
    if path.len() <= 1 {
        if items.contains_key(name) && (items[name] is Table || items[name] is ArrayOfTables) {
            Err(SetError::OverwritesTable)
        } else {
            Ok(items.insert(name, ItemTree::Value(value)))
        }
    } else {
        let child = if items.contains_key(name) {
            items[name]
        } else {
            ItemTree::Table(Map::empty())
        };
        match child {
            ItemTree::Table(below) => match set_in(below, path.drop_first(), value) {
                Ok(below) => Ok(items.insert(name, ItemTree::Table(below))),
                Err(error) => Err(error),
            },
            _ => Err(SetError::ParentNotTable),
        }
    }
}

/// What is said of a value that cannot be set.
pub open spec fn set_message(error: SetError, shown: Seq<Seq<char>>) -> Seq<char> {
    "Failed to set "@ + dotted(shown) + match error {
        SetError::ParentNotTable => ": would overwrite non-table value with parent table"@,
        SetError::OverwritesTable => ": would overwrite entire table"@,
    }
}

/// The result of an edit: the table is as it should be, or as it was.
pub open spec fn edited<E>(before: Items, expected: Result<Items, E>, after: Items, result: Result<
    (),
    E,
>) -> bool {
    match (expected, result) {
        (Ok(items), Ok(_)) => after == items,
        (Err(error), Err(reported)) => error == reported && after == before,
        _ => false,
    }
}

/// How a table is written once a value was set: the entry of the value is written as
/// the value is, and all others stay as they are.
pub open spec fn set_layout(
    layout: TableLayout,
    path: Seq<Seq<char>>,
    value: Seq<char>,
) -> TableLayout
    decreases path.len(),
{
    let name = path[0];
    if path.len() <= 1 {
        with_item(layout, name, ItemLayout::Value(value))
    } else {
        let below = if layout.entries.contains_key(name) {
            layout.entries[name].item->Table_0
        } else {
            new_table_layout()
        };
        with_item(layout, name, ItemLayout::Table(set_layout(below, path.drop_first(), value)))
    }
}

/// Nothing but tables is written on the way to the end of the path.
pub open spec fn leads_through_tables(layout: TableLayout, path: Seq<Seq<char>>) -> bool
    decreases path.len(),
{
    path.len() > 1 && layout.entries.contains_key(path[0]) ==> {
        &&& layout.entries[path[0]].item is Table
        &&& leads_through_tables(layout.entries[path[0]].item->Table_0, path.drop_first())
    }
}

/// Nothing changes where an item is replaced by itself.
proof fn lemma_same_item(layout: TableLayout, name: Seq<char>)
    requires
        layout.entries.contains_key(name),
    ensures
        with_item(layout, name, layout.entries[name].item) == layout,
{
    assert(with_item(layout, name, layout.entries[name].item).entries =~= layout.entries);
}

/// Sets the value that the names from `start` on lead to.
fn set_at(table: &mut Table, components: &Vec<NameComponent>, start: usize, value: Value) -> (result:
    Result<(), SetError>)
    requires
        start < components.len(),
    ensures
        edited(
            table_items(*old(table)),
            set_in(
                table_items(*old(table)),
                names(components@).skip(start as int),
                toml_tree(value),
            ),
            table_items(*final(table)),
            result,
        ),
        table_layout(*final(table)) == if result is Ok {
            set_layout(
                table_layout(*old(table)),
                names(components@).skip(start as int),
                value_layout(value),
            )
        } else {
            table_layout(*old(table))
        },
        result is Ok ==> leads_through_tables(
            table_layout(*old(table)),
            names(components@).skip(start as int),
        ),
    decreases components.len() - start,
{
    let ghost path = names(components@).skip(start as int);
    let ghost items = table_items(*table);
    let ghost layout = table_layout(*table);
    let key = components[start].name.as_str();
    assert(path[0] == key@);
    if start + 1 == components.len() {
        // Error out if overwriting non-scalar value for key (table or array) with
        // scalar.
        match table_get(table, key) {
            Some(item) => match item_kind(item) {
                ItemKind::Table | ItemKind::ArrayOfTables => {
                    return Err(SetError::OverwritesTable);
                },
                _ => {},
            },
            None => {},
        }
        table_set(table, key, value);
        Ok(())
    } else {
        assert(path.drop_first() =~= names(components@).skip(start + 1));
        let item = entry_or_table(table, key);
        match item_as_table_mut(item) {
            Some(below) => {
                let result = set_at(below, components, start + 1, value);
                proof {
                    if result is Err && !items.contains_key(key@) {
                        lemma_set_in_empty(path.drop_first(), toml_tree(value));
                    }
                    if result is Err {
                        assert(items.insert(key@, items[key@]) =~= items);
                        lemma_same_item(layout, key@);
                    }
                }
                result
            },
            None => {
                proof {
                    assert(items.insert(key@, items[key@]) =~= items);
                    lemma_same_item(layout, key@);
                }
                Err(SetError::ParentNotTable)
            },
        }
    }
}

/// In an empty table every value can be set.
proof fn lemma_set_in_empty(path: Seq<Seq<char>>, value: TomlTree)
    ensures
        set_in(Map::empty(), path, value) is Ok,
    decreases path.len(),
{
    if path.len() > 1 {
        lemma_set_in_empty(path.drop_first(), value);
    }
}

/// What becomes of a document by setting a value.
pub open spec fn value_set(
    before: Items,
    path: Seq<Seq<char>>,
    shown: Seq<Seq<char>>,
    value: TomlTree,
    after: Items,
    result: Result<(), CommandFailure>,
) -> bool {
    match (set_in(before, path, value), result) {
        (Ok(items), Ok(_)) => after == items,
        (Err(error), Err(failure)) => {
            &&& after == before
            &&& failure@ == (CommandFailureText::User {
                message: set_message(error, shown),
                cause: None,
            })
        },
        _ => false,
    }
}

/// How a document is written once a value was set.
pub open spec fn document_with_value(
    layout: DocumentLayout,
    path: Seq<Seq<char>>,
    value: Seq<char>,
) -> DocumentLayout {
    DocumentLayout { root: set_layout(layout.root, path, value), ..layout }
}

/// Sets a value of a document.
pub fn set_value(document: &mut DocumentMut, key: &ConfigNamePathBuf, value: Value) -> (result: Result<
    (),
    CommandFailure,
>)
    requires
        document_tree(*old(document)) is Table,
        key@.len() > 0,
    ensures
        document_tree(*final(document)) is Table,
        value_set(
            document_tree(*old(document))->Table_0,
            key@,
            key.shown(),
            toml_tree(value),
            document_tree(*final(document))->Table_0,
            result,
        ),
        document_layout(*final(document)) == if result is Ok {
            document_with_value(document_layout(*old(document)), key@, value_layout(value))
        } else {
            document_layout(*old(document))
        },
        result is Ok ==> leads_through_tables(document_layout(*old(document)).root, key@),
{
    let components = key.components();
    assert(names(components@).skip(0) =~= key@);
    match set_at(root_table(document), components, 0, value) {
        Ok(_) => Ok(()),
        Err(error) => {
            let mut message = "Failed to set ".to_owned();
            message.append(display_path(key).as_str());
            match error {
                SetError::ParentNotTable => {
                    message.append(": would overwrite non-table value with parent table");
                },
                SetError::OverwritesTable => {
                    message.append(": would overwrite entire table");
                },
            }
            Err(CommandFailure::User { message, cause: None })
        },
    }
}

/// Why a value cannot be removed.
#[derive(Clone, Copy, Debug, PartialEq, Eq, Structural)]
pub enum RemoveError {
    /// The name at the given position of the path holds nothing.
    NotFound(usize),
    /// The name at the given position of the path holds something that is not a
    /// table.
    NotTable(usize),
    /// The path leads to a table.
    IsTable,
}

/// The table `items` with the value at `path` removed. `depth` names lead to the
/// table.
pub open spec fn remove_in(items: Items, path: Seq<Seq<char>>, depth: usize) -> Result<
    Items,
    RemoveError,
>
    decreases path.len(),
{
    let name = path[0];
    if path.len() <= 1 {
        if !items.contains_key(name) {
            Err(RemoveError::NotFound(depth))
        } else if items[name] is Table {
            Err(RemoveError::IsTable)
        } else {
            Ok(items.remove(name))
        }
    } else if !items.contains_key(name) || items[name] is Nothing {
        Err(RemoveError::NotFound(depth))
    } else {
        match items[name] {
            ItemTree::Table(below) => match remove_in(
                below,
                path.drop_first(),
                (depth + 1) as usize,
            ) {
                Ok(below) => Ok(items.insert(name, ItemTree::Table(below))),
                Err(error) => Err(error),
            },
            _ => Err(RemoveError::NotTable(depth)),
        }
    }
}

/// What is said of a value that cannot be removed: a missing name on the way is
/// reported by itself, and the last one by the whole path.
pub open spec fn remove_failure(error: RemoveError, shown: Seq<Seq<char>>) -> CommandFailureText {
    match error {
        RemoveError::NotFound(position) => CommandFailureText::Config(
            ConfigFailureText::NotFound(
                if position + 1 == shown.len() {
                    dotted(shown)
                } else {
                    shown[position as int]
                },
            ),
        ),
        RemoveError::NotTable(position) => CommandFailureText::Config(
            ConfigFailureText::Message(
                "\""@ + shown[position as int] + "\" is not a table"@,
            ),
        ),
        RemoveError::IsTable => CommandFailureText::User {
            message: "Won't remove table "@ + dotted(shown),
            cause: None,
        },
    }
}

/// How a table is written once a value was removed: all other entries stay as they
/// are.
pub open spec fn remove_layout(layout: TableLayout, path: Seq<Seq<char>>) -> TableLayout
    decreases path.len(),
{
    let name = path[0];
    if path.len() <= 1 {
        without_entry(layout, name)
    } else {
        with_item(
            layout,
            name,
            ItemLayout::Table(
                remove_layout(layout.entries[name].item->Table_0, path.drop_first()),
            ),
        )
    }
}

/// Removes the value that the names from `start` on lead to.
fn remove_at(table: &mut Table, components: &Vec<NameComponent>, start: usize) -> (result: Result<
    (),
    RemoveError,
>)
    requires
        start < components.len(),
    ensures
        edited(
            table_items(*old(table)),
            remove_in(table_items(*old(table)), names(components@).skip(start as int), start),
            table_items(*final(table)),
            result,
        ),
        table_layout(*final(table)) == if result is Ok {
            remove_layout(table_layout(*old(table)), names(components@).skip(start as int))
        } else {
            table_layout(*old(table))
        },
        result matches Err(RemoveError::NotFound(position)) ==> position < components.len(),
        result matches Err(RemoveError::NotTable(position)) ==> position < components.len(),
        result is Ok ==> leads_through_tables(
            table_layout(*old(table)),
            names(components@).skip(start as int),
        ) && lookup_layout(
            table_layout(*old(table)),
            names(components@).skip(start as int),
        ) is Some,
    decreases components.len() - start,
{
    let ghost path = names(components@).skip(start as int);
    let ghost items = table_items(*table);
    let ghost layout = table_layout(*table);
    let key = components[start].name.as_str();
    assert(path[0] == key@);
    proof {
        if layout.entries.contains_key(key@) {
            lemma_same_item(layout, key@);
        }
    }
    if start + 1 == components.len() {
        let kind = match occupied_entry(table, key) {
            Some(item) => Some(item_kind(item)),
            None => None,
        };
        assert(items.contains_key(key@) ==> items.insert(key@, items[key@]) =~= items);
        match kind {
            Some(ItemKind::Table) => Err(RemoveError::IsTable),
            Some(_) => {
                table_remove(table, key);
                Ok(())
            },
            None => Err(RemoveError::NotFound(start)),
        }
    } else {
        assert(path.drop_first() =~= names(components@).skip(start + 1));
        match table_get_mut(table, key) {
            Some(item) => {
                assert(items.insert(key@, items[key@]) =~= items);
                match item_as_table_mut(item) {
                    Some(below) => remove_at(below, components, start + 1),
                    None => Err(RemoveError::NotTable(start)),
                }
            },
            None => Err(RemoveError::NotFound(start)),
        }
    }
}

/// What becomes of a document by removing a value.
pub open spec fn value_removed(
    before: Items,
    path: Seq<Seq<char>>,
    shown: Seq<Seq<char>>,
    after: Items,
    result: Result<(), CommandFailure>,
) -> bool {
    match (remove_in(before, path, 0), result) {
        (Ok(items), Ok(_)) => after == items,
        (Err(error), Err(failure)) => after == before && failure@ == remove_failure(error, shown),
        _ => false,
    }
}

/// How a document is written once a value was removed.
pub open spec fn document_without_value(
    layout: DocumentLayout,
    path: Seq<Seq<char>>,
) -> DocumentLayout {
    DocumentLayout { root: remove_layout(layout.root, path), ..layout }
}

/// Removes a value of a document.
pub fn remove_value(document: &mut DocumentMut, key: &ConfigNamePathBuf) -> (result: Result<
    (),
    CommandFailure,
>)
    requires
        document_tree(*old(document)) is Table,
        key@.len() > 0,
    ensures
        document_tree(*final(document)) is Table,
        value_removed(
            document_tree(*old(document))->Table_0,
            key@,
            key.shown(),
            document_tree(*final(document))->Table_0,
            result,
        ),
        document_layout(*final(document)) == if result is Ok {
            document_without_value(document_layout(*old(document)), key@)
        } else {
            document_layout(*old(document))
        },
        result is Ok ==> leads_through_tables(document_layout(*old(document)).root, key@)
            && lookup_layout(document_layout(*old(document)).root, key@) is Some,
        key@.len() <= usize::MAX,
{
    let components = key.components();
    assert(names(components@).skip(0) =~= key@);
    assert(key.shown().len() == components.len());
    match remove_at(root_table(document), components, 0) {
        Ok(_) => Ok(()),
        Err(RemoveError::NotFound(position)) => {
            let name = if position + 1 == components.len() {
                display_path(key)
            } else {
                components[position].display()
            };
            Err(CommandFailure::Config(ConfigFailure::NotFound(name)))
        },
        Err(RemoveError::NotTable(position)) => {
            let mut message = "\"".to_owned();
            message.append(components[position].display().as_str());
            message.append("\" is not a table");
            Err(CommandFailure::Config(ConfigFailure::Message(message)))
        },
        Err(RemoveError::IsTable) => {
            let mut message = "Won't remove table ".to_owned();
            message.append(display_path(key).as_str());
            Err(CommandFailure::User { message, cause: None })
        },
    }
}

/// What came of reading a file.
#[derive(Debug)]
pub enum FileRead {
    /// The text of the file.
    Text(String),
    /// There is no such file.
    NotFound,
    /// The file could not be read, for the given reason.
    Failed(String),
}

/// The root table of a configuration file, or what is said if it cannot be read.
pub open spec fn config_items(path: Seq<char>, read: FileRead) -> Result<
    Items,
    CommandFailureText,
> {
    match read {
        // If config doesn't exist yet, read as empty and we'll write one.
        FileRead::NotFound => Ok(Map::empty()),
        FileRead::Text(text) => match parsed_document(text@) {
            Ok(items) => Ok(items),
            Err(reason) => Err(
                CommandFailureText::User {
                    message: "Failed to parse file "@ + path,
                    cause: Some(reason),
                },
            ),
        },
        FileRead::Failed(reason) => Err(
            CommandFailureText::User {
                message: "Failed to read file "@ + path,
                cause: Some(reason@),
            },
        ),
    }
}

/// How a configuration file is written that can be read.
pub open spec fn config_layout(read: FileRead) -> DocumentLayout {
    match read {
        FileRead::Text(text) => parsed_layout(text@),
        _ => parsed_layout(""@),
    }
}

/// Makes a document of a configuration file. `path` is how the path of the file
/// is displayed.
pub fn read_config(path: &str, read: FileRead) -> (document: Result<DocumentMut, CommandFailure>)
    ensures
        match (config_items(path@, read), document) {
            (Ok(items), Ok(document)) => {
                &&& document_tree(document) == ItemTree::Table(items)
                &&& document_layout(document) == config_layout(read)
            },
            (Err(failure), Err(error)) => error@ == failure,
            _ => false,
        },
        match read {
            FileRead::Text(text) => match (parsed_document(text@), document) {
                (Ok(items), Ok(document)) => {
                    &&& document_tree(document) == ItemTree::Table(items)
                    &&& document_layout(document) == parsed_layout(text@)
                },
                (Err(reason), Err(error)) => error@ == (CommandFailureText::User {
                    message: "Failed to parse file "@ + path@,
                    cause: Some(reason),
                }),
                _ => false,
            },
            FileRead::NotFound => {
                &&& document matches Ok(document)
                &&& document_tree(document) == ItemTree::Table(Map::empty())
                &&& document_layout(document) == parsed_layout(""@)
            },
            FileRead::Failed(reason) => document matches Err(error) && error@ == (
            CommandFailureText::User {
                message: "Failed to read file "@ + path@,
                cause: Some(reason@),
            }),
        },
{
    proof {
        reveal_strlit("");
    }
    let config_toml = match read {
        FileRead::Text(text) => text,
        FileRead::NotFound => "".to_owned(),
        FileRead::Failed(reason) => {
            let mut message = "Failed to read file ".to_owned();
            message.append(path);
            return Err(CommandFailure::User { message, cause: Some(reason) });
        },
    };
    match parse_document(config_toml.as_str()) {
        Ok(document) => Ok(document),
        Err(error) => {
            let mut message = "Failed to parse file ".to_owned();
            message.append(path);
            Err(CommandFailure::User { message, cause: Some(toml_error_message(&error)) })
        },
    }
}

/// What is reported once a file was written, given what came of writing it. `path`
/// is how the path of the file is displayed.
pub fn write_config(path: &str, outcome: Result<(), String>) -> (result: Result<(), CommandFailure>)
    ensures
        match outcome {
            Ok(_) => result is Ok,
            Err(reason) => result matches Err(error) && error@ == (CommandFailureText::User {
                message: "Failed to write file "@ + path@,
                cause: Some(reason@),
            }),
        },
{
    match outcome {
        Ok(_) => Ok(()),
        Err(reason) => {
            let mut message = "Failed to write file ".to_owned();
            message.append(path);
            Err(CommandFailure::User { message, cause: Some(reason) })
        },
    }
}

/// The text is that of a document with the given root table, written in the given
/// way.
pub open spec fn text_of_items(text: Seq<char>, items: Items, layout: DocumentLayout) -> bool {
    &&& text == layout_text(layout)
    &&& exists|document: DocumentMut|
        #![trigger document_tree(document)]
        document_tree(document) == ItemTree::Table(items) && document_layout(document) == layout
}

/// The text is that of a document that holds the value at the end of the path, or
/// nothing there if there is no value. All that is not on the way there is as in `items`,
/// and written as in `layout`.
pub open spec fn keeps_the_file(
    items: Items,
    layout: DocumentLayout,
    path: Seq<Seq<char>>,
    value: Option<(TomlTree, Seq<char>)>,
    text: Seq<char>,
) -> bool {
    exists|document: DocumentMut|
        {
            &&& #[trigger] document_tree(document) is Table
            &&& text == layout_text(document_layout(document))
            &&& match value {
                Some((tree, written)) => {
                    &&& lookup_item(document_tree(document)->Table_0, path) == Some(
                        ItemTree::Value(tree),
                    )
                    &&& lookup_layout(document_layout(document).root, path) matches Some(entry)
                        && entry.item == ItemLayout::Value(written)
                },
                None => {
                    &&& lookup_item(document_tree(document)->Table_0, path) is None
                    &&& lookup_layout(document_layout(document).root, path) is None
                },
            }
            &&& forall|other: Seq<Seq<char>>|
                !other.is_prefix_of(path) ==> #[trigger] lookup_item(
                    document_tree(document)->Table_0,
                    other,
                ) == lookup_item(items, other)
            &&& forall|other: Seq<Seq<char>>|
                !other.is_prefix_of(path) && !path.is_prefix_of(other) ==> #[trigger] lookup_layout(
                    document_layout(document).root,
                    other,
                ) == lookup_layout(layout.root, other)
            &&& document_layout(document).trailing == layout.trailing
        }
}

/// Sets a value of a configuration file, and gives the text to be written to the
/// file. `path` is how the path of the file is displayed.
pub fn write_config_value_to_file(
    key: &ConfigNamePathBuf,
    value: Value,
    path: &str,
    read: FileRead,
) -> (result: Result<String, CommandFailure>)
    requires
        key@.len() > 0,
    ensures
        match config_items(path@, read) {
            Err(failure) => result matches Err(error) && error@ == failure,
            Ok(items) => match (set_in(items, key@, toml_tree(value)), result) {
                (Ok(items), Ok(text)) => text_of_items(
                    text@,
                    items,
                    document_with_value(config_layout(read), key@, value_layout(value)),
                ),
                (Err(error), Err(failure)) => failure@ == (CommandFailureText::User {
                    message: set_message(error, key.shown()),
                    cause: None,
                }),
                _ => false,
            },
        },
        result is Ok ==> leads_through_tables(config_layout(read).root, key@),
        forall|items: Items, layout: DocumentLayout| #[trigger]
            file_says(read, items, layout) && result is Ok ==> keeps_the_file(
                items,
                layout,
                key@,
                Some((toml_tree(value), value_layout(value))),
                result->Ok_0@,
            ),
{
    let mut document = match read_config(path, read) {
        Ok(document) => document,
        Err(error) => {
            return Err(error);
        },
    };
    let result = match set_value(&mut document, key, value) {
        Ok(_) => Ok(render_document(&document)),
        Err(error) => Err(error),
    };
    proof {
        assert forall|items: Items, layout: DocumentLayout| #[trigger]
            file_says(read, items, layout) && result is Ok implies keeps_the_file(
            items,
            layout,
            key@,
            Some((toml_tree(value), value_layout(value))),
            result->Ok_0@,
        ) by {
            let written = law_writing_a_value_keeps_the_file(
                *key,
                value,
                path@,
                read,
                result,
                items,
                layout,
            );
            assert(document_tree(written) is Table);
        }
    }
    result
}

/// Removes a value of a configuration file, and gives the text to be written to
/// the file. `path` is how the path of the file is displayed.
pub fn remove_config_value_from_file(
    key: &ConfigNamePathBuf,
    path: &str,
    read: FileRead,
) -> (result: Result<String, CommandFailure>)
    requires
        key@.len() > 0,
    ensures
        match config_items(path@, read) {
            Err(failure) => result matches Err(error) && error@ == failure,
            Ok(items) => match (remove_in(items, key@, 0), result) {
                (Ok(items), Ok(text)) => text_of_items(
                    text@,
                    items,
                    document_without_value(config_layout(read), key@),
                ),
                (Err(error), Err(failure)) => failure@ == remove_failure(error, key.shown()),
                _ => false,
            },
        },
        result is Ok ==> leads_through_tables(config_layout(read).root, key@) && lookup_layout(
            config_layout(read).root,
            key@,
        ) is Some,
        forall|items: Items, layout: DocumentLayout| #[trigger]
            file_says(read, items, layout) && result is Ok ==> keeps_the_file(
                items,
                layout,
                key@,
                None,
                result->Ok_0@,
            ),
{
    let mut document = match read_config(path, read) {
        Ok(document) => document,
        Err(error) => {
            return Err(error);
        },
    };
    let result = match remove_value(&mut document, key) {
        Ok(_) => Ok(render_document(&document)),
        Err(error) => Err(error),
    };
    proof {
        assert forall|items: Items, layout: DocumentLayout| #[trigger]
            file_says(read, items, layout) && result is Ok implies keeps_the_file(
            items,
            layout,
            key@,
            None,
            result->Ok_0@,
        ) by {
            let written = law_removing_a_value_keeps_the_file(
                *key,
                path@,
                read,
                result,
                items,
                layout,
            );
            assert(document_tree(written) is Table);
        }
    }
    result
}

/// What a table holds at the end of a path, if the path leads anywhere.
pub open spec fn lookup_item(items: Items, path: Seq<Seq<char>>) -> Option<ItemTree>
    decreases path.len(),
{
    if path.len() == 0 || !items.contains_key(path[0]) {
        None
    } else if path.len() == 1 {
        Some(items[path[0]])
    } else {
        match items[path[0]] {
            ItemTree::Table(below) => lookup_item(below, path.drop_first()),
            _ => None,
        }
    }
}

/// A value that was set is found where it was set.
pub proof fn law_set_value_is_found(items: Items, path: Seq<Seq<char>>, value: TomlTree)
    requires
        path.len() > 0,
        set_in(items, path, value) is Ok,
    ensures
        lookup_item(set_in(items, path, value)->Ok_0, path) == Some(ItemTree::Value(value)),
    decreases path.len(),
{
    if path.len() > 1 {
        law_set_value_is_found(child_table(items, path[0]), path.drop_first(), value);
    }
}

/// The table below a name, which is empty if there is nothing.
spec fn child_table(items: Items, name: Seq<char>) -> Items {
    if items.contains_key(name) {
        items[name]->Table_0
    } else {
        Map::empty()
    }
}

/// The first names of two paths can be dropped alike.
proof fn lemma_prefix_below(a: Seq<Seq<char>>, b: Seq<Seq<char>>)
    requires
        a.len() > 0,
        b.len() > 0,
        a[0] == b[0],
    ensures
        a.is_prefix_of(b) == a.drop_first().is_prefix_of(b.drop_first()),
{
    let n = a.len() as int;
    if a.is_prefix_of(b) {
        assert(a.drop_first() =~= b.subrange(0, n).drop_first());
        assert(a.drop_first() =~= b.drop_first().subrange(0, n - 1));
    }
    if a.drop_first().is_prefix_of(b.drop_first()) {
        assert(a =~= seq![a[0]] + a.drop_first());
        assert(b.subrange(0, n) =~= seq![b[0]] + b.drop_first().subrange(0, n - 1));
    }
}

/// Setting a value keeps everything but the value and the tables that lead to it.
pub proof fn law_setting_keeps_the_rest(
    items: Items,
    path: Seq<Seq<char>>,
    value: TomlTree,
    other: Seq<Seq<char>>,
)
    requires
        path.len() > 0,
        set_in(items, path, value) is Ok,
        !other.is_prefix_of(path),
    ensures
        lookup_item(set_in(items, path, value)->Ok_0, other) == lookup_item(items, other),
    decreases path.len(),
{
    if other.len() > 0 && other[0] == path[0] {
        lemma_prefix_below(other, path);
        if path.len() == 1 {
            assert(path.drop_first() =~= Seq::empty());
            assert(other.len() > 1) by {
                if other.len() == 1 {
                    assert(other.drop_first() =~= Seq::empty());
                }
            }
        } else {
            assert(other.len() > 1) by {
                if other.len() == 1 {
                    assert(other.drop_first() =~= path.drop_first().subrange(0, 0));
                }
            }
            law_setting_keeps_the_rest(
                child_table(items, path[0]),
                path.drop_first(),
                value,
                other.drop_first(),
            );
        }
    }
}

/// Of two values that are set in the same place, the second one counts.
pub proof fn law_setting_again_replaces(
    items: Items,
    path: Seq<Seq<char>>,
    first: TomlTree,
    second: TomlTree,
)
    requires
        path.len() > 0,
        set_in(items, path, first) is Ok,
    ensures
        set_in(set_in(items, path, first)->Ok_0, path, second) == set_in(items, path, second),
    decreases path.len(),
{
    let name = path[0];
    let once = set_in(items, path, first)->Ok_0;
    if path.len() == 1 {
        assert(once.insert(name, ItemTree::Value(second)) =~= items.insert(
            name,
            ItemTree::Value(second),
        ));
    } else {
        let below = child_table(items, name);
        law_setting_again_replaces(below, path.drop_first(), first, second);
        let inner = set_in(below, path.drop_first(), second);
        if inner is Ok {
            assert(once.insert(name, ItemTree::Table(inner->Ok_0)) =~= items.insert(
                name,
                ItemTree::Table(inner->Ok_0),
            ));
        }
    }
}

/// A value cannot be set where tables are, nor below anything that is not a table.
/// It can be set everywhere else.
pub proof fn law_where_values_can_be_set(items: Items, path: Seq<Seq<char>>, value: TomlTree)
    requires
        path.len() > 0,
    ensures
        set_in(items, path, value) == Err::<Items, SetError>(SetError::OverwritesTable)
            <==> (lookup_item(items, path) matches Some(item) && (item is Table
            || item is ArrayOfTables)),
        set_in(items, path, value) == Err::<Items, SetError>(SetError::ParentNotTable)
            <==> below_no_table(items, path),
    decreases path.len(),
{
    reveal_with_fuel(lookup_item, 2);
    if path.len() > 1 {
        let name = path[0];
        if items.contains_key(name) && items[name] is Table {
            let below = items[name]->Table_0;
            law_where_values_can_be_set(below, path.drop_first(), value);
            lemma_below_no_table(items, path);
        } else if !items.contains_key(name) {
            lemma_set_in_empty(path.drop_first(), value);
            assert forall|n: int| 0 < n < path.len() implies lookup_item(
                items,
                #[trigger] path.take(n),
            ) is None by {
                assert(path.take(n)[0] == name);
            }
        } else {
            assert(path.take(1)[0] == name);
            assert(lookup_item(items, path.take(1)) == Some(items[name]));
        }
    }
}

/// On the way to the end of the path there is something that is not a table.
pub open spec fn below_no_table(items: Items, path: Seq<Seq<char>>) -> bool {
    exists|n: int|
        0 < n < path.len() && (lookup_item(items, #[trigger] path.take(n)) matches Some(item)
            && !(item is Table))
}

/// Behind a table, the way to the end of a path is that of the rest of the path.
proof fn lemma_below_no_table(items: Items, path: Seq<Seq<char>>)
    requires
        path.len() > 1,
        items.contains_key(path[0]),
        items[path[0]] is Table,
    ensures
        below_no_table(items, path) == below_no_table(
            items[path[0]]->Table_0,
            path.drop_first(),
        ),
{
    let below = items[path[0]]->Table_0;
    let rest = path.drop_first();
    assert forall|n: int| 1 < n < path.len() implies lookup_item(items, #[trigger] path.take(n))
        == lookup_item(below, rest.take(n - 1)) by {
        assert(path.take(n).drop_first() =~= rest.take(n - 1));
        assert(path.take(n)[0] == path[0]);
    }
    assert(path.take(1)[0] == path[0]);
    if below_no_table(items, path) {
        let n = choose|n: int|
            0 < n < path.len() && (lookup_item(items, #[trigger] path.take(n)) matches Some(item)
                && !(item is Table));
        assert(n > 1);
        assert(rest.take(n - 1).len() == n - 1);
    }
    if below_no_table(below, rest) {
        let n = choose|n: int|
            0 < n < rest.len() && (lookup_item(below, #[trigger] rest.take(n)) matches Some(item)
                && !(item is Table));
        assert(path.take(n + 1).len() == n + 1);
    }
}

/// A value that was removed is gone.
pub proof fn law_removed_value_is_gone(items: Items, path: Seq<Seq<char>>, depth: usize)
    requires
        path.len() > 0,
        remove_in(items, path, depth) is Ok,
    ensures
        lookup_item(remove_in(items, path, depth)->Ok_0, path) is None,
    decreases path.len(),
{
    if path.len() > 1 {
        law_removed_value_is_gone(
            items[path[0]]->Table_0,
            path.drop_first(),
            (depth + 1) as usize,
        );
    }
}

/// Removing a value keeps everything but the value and the tables that lead to it.
pub proof fn law_removing_keeps_the_rest(
    items: Items,
    path: Seq<Seq<char>>,
    depth: usize,
    other: Seq<Seq<char>>,
)
    requires
        path.len() > 0,
        remove_in(items, path, depth) is Ok,
        !other.is_prefix_of(path),
    ensures
        lookup_item(remove_in(items, path, depth)->Ok_0, other) == lookup_item(items, other),
    decreases path.len(),
{
    if other.len() > 0 && other[0] == path[0] {
        lemma_prefix_below(other, path);
        if path.len() == 1 {
            assert(path.drop_first() =~= Seq::empty());
            assert(other.len() > 1) by {
                if other.len() == 1 {
                    assert(other.drop_first() =~= Seq::empty());
                }
            }
        } else {
            assert(other.len() > 1) by {
                if other.len() == 1 {
                    assert(other.drop_first() =~= path.drop_first().subrange(0, 0));
                }
            }
            law_removing_keeps_the_rest(
                items[path[0]]->Table_0,
                path.drop_first(),
                (depth + 1) as usize,
                other.drop_first(),
            );
        }
    }
}

/// A value that was set can be removed. If nothing was there before, and the table
/// that holds the value was there, everything is then as before.
pub proof fn law_set_value_can_be_removed(
    items: Items,
    path: Seq<Seq<char>>,
    value: TomlTree,
    depth: usize,
)
    requires
        path.len() > 0,
        set_in(items, path, value) is Ok,
    ensures
        remove_in(set_in(items, path, value)->Ok_0, path, depth) is Ok,
        lookup_item(items, path) is None && (path.len() == 1 || lookup_item(
            items,
            path.drop_last(),
        ) is Some) ==> remove_in(set_in(items, path, value)->Ok_0, path, depth)->Ok_0 == items,
    decreases path.len(),
{
    let name = path[0];
    let after = set_in(items, path, value)->Ok_0;
    if path.len() == 1 {
        if lookup_item(items, path) is None {
            assert(after.remove(name) =~= items);
        }
    } else {
        let below = child_table(items, name);
        law_set_value_can_be_removed(
            below,
            path.drop_first(),
            value,
            (depth + 1) as usize,
        );
        assert(path.drop_last()[0] == name);
        assert(path.drop_last().drop_first() =~= path.drop_first().drop_last());
        if lookup_item(items, path) is None && lookup_item(items, path.drop_last()) is Some {
            assert(items.contains_key(name));
            assert(after.insert(name, ItemTree::Table(below)) =~= items);
        }
    }
}

/// How an entry is written, if the path leads to one.
pub open spec fn lookup_layout(layout: TableLayout, path: Seq<Seq<char>>) -> Option<EntryLayout>
    decreases path.len(),
{
    if path.len() == 0 || !layout.entries.contains_key(path[0]) {
        None
    } else if path.len() == 1 {
        Some(layout.entries[path[0]])
    } else {
        match layout.entries[path[0]].item {
            ItemLayout::Table(below) => lookup_layout(below, path.drop_first()),
            _ => None,
        }
    }
}

/// A value can stand at the end of the path: nothing but tables leads there, and no
/// table is there.
pub open spec fn fits(layout: TableLayout, path: Seq<Seq<char>>) -> bool
    decreases path.len(),
{
    &&& path.len() > 0
    &&& layout.entries.contains_key(path[0]) ==> if path.len() == 1 {
        !(layout.entries[path[0]].item is Table)
    } else {
        layout.entries[path[0]].item is Table && fits(
            layout.entries[path[0]].item->Table_0,
            path.drop_first(),
        )
    }
}

/// Setting a value keeps how every entry is written but the value and the tables that
/// lead to it.
pub proof fn law_setting_keeps_the_layout(
    layout: TableLayout,
    path: Seq<Seq<char>>,
    value: Seq<char>,
    other: Seq<Seq<char>>,
)
    requires
        fits(layout, path),
        !other.is_prefix_of(path),
    ensures
        lookup_layout(set_layout(layout, path, value), other) == lookup_layout(layout, other),
    decreases path.len(),
{
    if other.len() > 0 && other[0] == path[0] {
        lemma_longer_or_apart(other, path);
        if path.len() > 1 {
            let below = if layout.entries.contains_key(path[0]) {
                layout.entries[path[0]].item->Table_0
            } else {
                new_table_layout()
            };
            law_setting_keeps_the_layout(below, path.drop_first(), value, other.drop_first());
        }
    }
}

/// A path that is no prefix of another one goes on behind a first name that both have.
proof fn lemma_longer_or_apart(other: Seq<Seq<char>>, path: Seq<Seq<char>>)
    requires
        other.len() > 0,
        path.len() > 0,
        other[0] == path[0],
        !other.is_prefix_of(path),
    ensures
        other.len() > 1,
        !other.drop_first().is_prefix_of(path.drop_first()),
{
    lemma_prefix_below(other, path);
    if other.len() == 1 {
        assert(other.drop_first() =~= path.drop_first().subrange(0, 0));
    }
}

/// Removing a value keeps how every entry is written but the tables that lead to it.
pub proof fn law_removing_keeps_the_layout(
    layout: TableLayout,
    path: Seq<Seq<char>>,
    other: Seq<Seq<char>>,
)
    requires
        fits(layout, path),
        lookup_layout(layout, path) is Some,
        !other.is_prefix_of(path),
    ensures
        lookup_layout(remove_layout(layout, path), other) == lookup_layout(layout, other),
    decreases path.len(),
{
    if other.len() > 0 && other[0] == path[0] {
        lemma_longer_or_apart(other, path);
        if path.len() > 1 {
            law_removing_keeps_the_layout(
                layout.entries[path[0]].item->Table_0,
                path.drop_first(),
                other.drop_first(),
            );
        }
    }
}

/// The names of the root table stay in their order when a value is set.
pub proof fn law_setting_keeps_the_order(
    layout: TableLayout,
    path: Seq<Seq<char>>,
    value: Seq<char>,
)
    ensures
        layout.order.is_prefix_of(set_layout(layout, path, value).order),
{
    let after = set_layout(layout, path, value).order;
    assert(layout.order =~= after.subrange(0, layout.order.len() as int));
}

/// A path leads where its parts lead one after the other, through a table.
pub proof fn law_lookup_goes_name_by_name(
    items: Items,
    name: Seq<char>,
    first: Seq<Seq<char>>,
    second: Seq<Seq<char>>,
)
    requires
        first.len() > 0,
        second.len() > 0,
    ensures
        lookup_item(items, Seq::empty()) is None,
        items.contains_key(name) ==> lookup_item(items, seq![name]) == Some(items[name]),
        !items.contains_key(name) ==> lookup_item(items, seq![name]) is None,
        lookup_item(items, first + second) == match lookup_item(items, first) {
            Some(ItemTree::Table(below)) => lookup_item(below, second),
            _ => None,
        },
    decreases first.len(),
{
    assert((first + second)[0] == first[0]);
    if first.len() == 1 {
        assert((first + second).drop_first() =~= second);
    } else {
        assert((first + second).drop_first() =~= first.drop_first() + second);
        if items.contains_key(first[0]) && items[first[0]] is Table {
            law_lookup_goes_name_by_name(
                items[first[0]]->Table_0,
                name,
                first.drop_first(),
                second,
            );
        }
    }
}

/// Names are displayed with a dot between each two of them.
pub proof fn law_names_are_joined_by_dots(
    first: Seq<Seq<char>>,
    second: Seq<Seq<char>>,
    name: Seq<char>,
)
    ensures
        dotted(seq![name]) == name,
        dotted(Seq::empty()) == Seq::<char>::empty(),
        first.len() > 0 && second.len() > 0 ==> dotted(first + second) == dotted(first) + seq!['.']
            + dotted(second),
    decreases second.len(),
{
    reveal_strlit(".");
    assert("."@ =~= seq!['.']);
    if first.len() > 0 && second.len() > 0 {
        let front = second.drop_last();
        law_names_are_joined_by_dots(first, front, name);
        assert((first + second).drop_last() =~= first + front);
        if front.len() == 0 {
            assert(first + front =~= first);
        }
        assert(dotted(first + second) =~= dotted(first) + seq!['.'] + dotted(second));
    }
}

/// The table below a name as it is written.
spec fn child_layout(layout: TableLayout, name: Seq<char>) -> TableLayout {
    if layout.entries.contains_key(name) {
        layout.entries[name].item->Table_0
    } else {
        new_table_layout()
    }
}

/// How entries are written once a value was set: the value as given, the tables on the
/// way as before, and all others as before.
proof fn lemma_written_after_setting(
    layout: TableLayout,
    path: Seq<Seq<char>>,
    value: Seq<char>,
)
    requires
        path.len() > 0,
        leads_through_tables(layout, path),
    ensures
        set_layout(layout, path, value).header == layout.header,
        layout.order.is_prefix_of(set_layout(layout, path, value).order),
        lookup_layout(set_layout(layout, path, value), path) matches Some(entry) && entry.item
            == ItemLayout::Value(value),
        forall|other: Seq<Seq<char>>|
            !other.is_prefix_of(path) && !path.is_prefix_of(other) ==> #[trigger] lookup_layout(
                set_layout(layout, path, value),
                other,
            ) == lookup_layout(layout, other),
    decreases path.len(),
{
    let after = set_layout(layout, path, value);
    assert(layout.order =~= after.order.subrange(0, layout.order.len() as int));
    if path.len() > 1 {
        lemma_written_after_setting(child_layout(layout, path[0]), path.drop_first(), value);
    }
    assert forall|other: Seq<Seq<char>>|
        !other.is_prefix_of(path) && !path.is_prefix_of(other) implies #[trigger] lookup_layout(
        after,
        other,
    ) == lookup_layout(layout, other) by {
        if other.len() > 0 && other[0] == path[0] {
            lemma_longer_or_apart(other, path);
            lemma_longer_or_apart(path, other);
            let below = child_layout(layout, path[0]);
            assert(lookup_layout(
                set_layout(below, path.drop_first(), value),
                other.drop_first(),
            ) == lookup_layout(below, other.drop_first()));
        }
    }
}

/// The tables on the way to a value are written as before, and name their entries in the
/// same order.
proof fn lemma_way_after_setting(
    layout: TableLayout,
    path: Seq<Seq<char>>,
    value: Seq<char>,
    n: int,
)
    requires
        0 < n < path.len(),
        leads_through_tables(layout, path),
    ensures
        lookup_layout(set_layout(layout, path, value), path.take(n)) matches Some(entry)
            && entry.item matches ItemLayout::Table(table) && (lookup_layout(
            layout,
            path.take(n),
        ) matches Some(old_entry) ==> {
            &&& entry.key == old_entry.key
            &&& table.header == old_entry.item->Table_0.header
            &&& old_entry.item->Table_0.order.is_prefix_of(table.order)
        }),
    decreases path.len(),
{
    let below = child_layout(layout, path[0]);
    assert(path.take(n)[0] == path[0]);
    lemma_written_after_setting(below, path.drop_first(), value);
    if n > 1 {
        assert(path.take(n).drop_first() =~= path.drop_first().take(n - 1));
        lemma_way_after_setting(below, path.drop_first(), value, n - 1);
    }
}

/// How entries are written once a value was removed: it is gone, and all others are
/// written as before.
proof fn lemma_written_after_removing(layout: TableLayout, path: Seq<Seq<char>>)
    requires
        path.len() > 0,
        leads_through_tables(layout, path),
        lookup_layout(layout, path) is Some,
    ensures
        remove_layout(layout, path).header == layout.header,
        remove_layout(layout, path).order == if path.len() == 1 {
            layout.order.filter(|name: Seq<char>| name != path[0])
        } else {
            layout.order
        },
        lookup_layout(remove_layout(layout, path), path) is None,
        forall|other: Seq<Seq<char>>|
            !other.is_prefix_of(path) && !path.is_prefix_of(other) ==> #[trigger] lookup_layout(
                remove_layout(layout, path),
                other,
            ) == lookup_layout(layout, other),
    decreases path.len(),
{
    let after = remove_layout(layout, path);
    if path.len() > 1 {
        lemma_written_after_removing(layout.entries[path[0]].item->Table_0, path.drop_first());
    }
    assert forall|other: Seq<Seq<char>>|
        !other.is_prefix_of(path) && !path.is_prefix_of(other) implies #[trigger] lookup_layout(
        after,
        other,
    ) == lookup_layout(layout, other) by {
        if other.len() > 0 && other[0] == path[0] {
            lemma_longer_or_apart(other, path);
            lemma_longer_or_apart(path, other);
            let below = layout.entries[path[0]].item->Table_0;
            assert(lookup_layout(remove_layout(below, path.drop_first()), other.drop_first())
                == lookup_layout(below, other.drop_first()));
        }
    }
}

/// The tables on the way to a removed value are written as before.
proof fn lemma_way_after_removing(layout: TableLayout, path: Seq<Seq<char>>, n: int)
    requires
        0 < n < path.len(),
        leads_through_tables(layout, path),
        lookup_layout(layout, path) is Some,
    ensures
        lookup_layout(layout, path.take(n)) matches Some(old_entry) && (lookup_layout(
            remove_layout(layout, path),
            path.take(n),
        ) matches Some(entry) && entry.item matches ItemLayout::Table(table) && {
            &&& entry.key == old_entry.key
            &&& table.header == old_entry.item->Table_0.header
            &&& table.order == if n == path.len() - 1 {
                old_entry.item->Table_0.order.filter(|name: Seq<char>| name != path[n])
            } else {
                old_entry.item->Table_0.order
            }
        }),
    decreases path.len(),
{
    let below = layout.entries[path[0]].item->Table_0;
    assert(path.take(n)[0] == path[0]);
    lemma_written_after_removing(below, path.drop_first());
    if n > 1 {
        assert(path.take(n).drop_first() =~= path.drop_first().take(n - 1));
        lemma_way_after_removing(below, path.drop_first(), n - 1);
    }
}

/// What a file is taken to hold, and how it is taken to be written: what its text says.
/// A file that is not there is taken to be empty.
pub open spec fn file_says(read: FileRead, items: Items, layout: DocumentLayout) -> bool {
    match read {
        FileRead::Text(text) => {
            &&& parsed_document(text@) == Ok::<Items, Seq<char>>(items)
            &&& layout == parsed_layout(text@)
        },
        FileRead::NotFound => items == Items::empty() && layout == parsed_layout(""@),
        FileRead::Failed(_) => false,
    }
}

/// Setting a value of a file, of whatever length, keeps what the text of the file says:
/// the value is found in what is written, and every path that is not on the way to it
/// leads to what it led to in the file. Everything else is written as it was, in the same
/// order.
pub proof fn law_writing_a_value_keeps_the_file(
    key: ConfigNamePathBuf,
    value: Value,
    path: Seq<char>,
    read: FileRead,
    result: Result<String, CommandFailure>,
    items: Items,
    layout: DocumentLayout,
) -> (document: DocumentMut)
    requires
        key@.len() > 0,
        match config_items(path, read) {
            Err(failure) => result matches Err(error) && error@ == failure,
            Ok(items) => match (set_in(items, key@, toml_tree(value)), result) {
                (Ok(items), Ok(text)) => text_of_items(
                    text@,
                    items,
                    document_with_value(config_layout(read), key@, value_layout(value)),
                ),
                (Err(error), Err(failure)) => failure@ == (CommandFailureText::User {
                    message: set_message(error, key.shown()),
                    cause: None,
                }),
                _ => false,
            },
        },
        result is Ok ==> leads_through_tables(config_layout(read).root, key@),
        match read {
            FileRead::Text(text) => parsed_document(text@) == Ok::<Items, Seq<char>>(items)
                && layout == parsed_layout(text@),
            FileRead::NotFound => items == Items::empty() && layout == parsed_layout(""@),
            FileRead::Failed(_) => false,
        },
        result is Ok,
    ensures
        result->Ok_0@ == layout_text(document_layout(document)),
        document_tree(document) is Table,
        lookup_item(document_tree(document)->Table_0, key@) == Some(
            ItemTree::Value(toml_tree(value)),
        ),
        forall|other: Seq<Seq<char>>|
            !other.is_prefix_of(key@) ==> #[trigger] lookup_item(
                document_tree(document)->Table_0,
                other,
            ) == lookup_item(items, other),
        document_layout(document).trailing == layout.trailing,
        document_layout(document).root.header == layout.root.header,
        layout.root.order.is_prefix_of(document_layout(document).root.order),
        lookup_layout(document_layout(document).root, key@) matches Some(entry) && entry.item
            == ItemLayout::Value(value_layout(value)),
        forall|other: Seq<Seq<char>>|
            !other.is_prefix_of(key@) && !key@.is_prefix_of(other) ==> #[trigger] lookup_layout(
                document_layout(document).root,
                other,
            ) == lookup_layout(layout.root, other),
        forall|n: int|
            #![trigger key@.take(n)]
            0 < n < key@.len() ==> (lookup_layout(
                document_layout(document).root,
                key@.take(n),
            ) matches Some(entry) && entry.item matches ItemLayout::Table(table) && (lookup_layout(
                layout.root,
                key@.take(n),
            ) matches Some(old_entry) ==> {
                &&& entry.key == old_entry.key
                &&& table.header == old_entry.item->Table_0.header
                &&& old_entry.item->Table_0.order.is_prefix_of(table.order)
            })),
{
    let after = set_in(items, key@, toml_tree(value))->Ok_0;
    let written = document_with_value(layout, key@, value_layout(value));
    assert(text_of_items(result->Ok_0@, after, written));
    let document = choose|document: DocumentMut|
        #![trigger document_tree(document)]
        document_tree(document) == ItemTree::Table(after) && document_layout(document) == written;
    law_set_value_is_found(items, key@, toml_tree(value));
    assert forall|other: Seq<Seq<char>>| !other.is_prefix_of(key@) implies #[trigger] lookup_item(
        after,
        other,
    ) == lookup_item(items, other) by {
        law_setting_keeps_the_rest(items, key@, toml_tree(value), other);
    }
    lemma_written_after_setting(layout.root, key@, value_layout(value));
    assert forall|n: int|
        #![trigger key@.take(n)]
        0 < n < key@.len() implies (lookup_layout(
        document_layout(document).root,
        key@.take(n),
    ) matches Some(entry) && entry.item matches ItemLayout::Table(table) && (lookup_layout(
        layout.root,
        key@.take(n),
    ) matches Some(old_entry) ==> {
        &&& entry.key == old_entry.key
        &&& table.header == old_entry.item->Table_0.header
        &&& old_entry.item->Table_0.order.is_prefix_of(table.order)
    })) by {
        lemma_way_after_setting(layout.root, key@, value_layout(value), n);
    }
    document
}

/// A value can be set in a file that can be read, unless tables stand there already or
/// something that is not a table stands on the way. Otherwise the error tells why not.
pub proof fn law_when_a_value_is_written(
    key: ConfigNamePathBuf,
    value: Value,
    path: Seq<char>,
    read: FileRead,
    result: Result<String, CommandFailure>,
    items: Items,
)
    requires
        key@.len() > 0,
        match config_items(path, read) {
            Err(failure) => result matches Err(error) && error@ == failure,
            Ok(items) => match (set_in(items, key@, toml_tree(value)), result) {
                (Ok(items), Ok(text)) => text_of_items(
                    text@,
                    items,
                    document_with_value(config_layout(read), key@, value_layout(value)),
                ),
                (Err(error), Err(failure)) => failure@ == (CommandFailureText::User {
                    message: set_message(error, key.shown()),
                    cause: None,
                }),
                _ => false,
            },
        },
        match read {
            FileRead::Text(text) => parsed_document(text@) == Ok::<Items, Seq<char>>(items),
            FileRead::NotFound => items == Items::empty(),
            FileRead::Failed(_) => false,
        },
    ensures
        ({
            let tables_there = lookup_item(items, key@) matches Some(item) && (item is Table
                || item is ArrayOfTables);
            let no_way = exists|n: int|
                0 < n < key@.len() && (lookup_item(items, #[trigger] key@.take(n)) matches Some(
                    item,
                ) && !(item is Table));
            &&& result is Ok <==> !tables_there && !no_way
            &&& tables_there ==> result->Err_0@ == (CommandFailureText::User {
                message: "Failed to set "@ + dotted(key.shown())
                    + ": would overwrite entire table"@,
                cause: None,
            })
            &&& no_way ==> result->Err_0@ == (CommandFailureText::User {
                message: "Failed to set "@ + dotted(key.shown())
                    + ": would overwrite non-table value with parent table"@,
                cause: None,
            })
        }),
{
    law_where_values_can_be_set(items, key@, toml_tree(value));
    assert(below_no_table(items, key@) == exists|n: int|
        0 < n < key@.len() && (lookup_item(items, #[trigger] key@.take(n)) matches Some(item)
            && !(item is Table)));
}

/// A file that is there but cannot be read, or whose text is not TOML, is reported, and
/// nothing is written. A file that is not there is no error.
pub proof fn law_unreadable_file_is_reported(
    path: Seq<char>,
    read: FileRead,
    document: Result<DocumentMut, CommandFailure>,
)
    requires
        match (config_items(path, read), document) {
            (Ok(items), Ok(document)) => {
                &&& document_tree(document) == ItemTree::Table(items)
                &&& document_layout(document) == config_layout(read)
            },
            (Err(failure), Err(error)) => error@ == failure,
            _ => false,
        },
    ensures
        read matches FileRead::Failed(reason) ==> (document matches Err(error) && error@ == (
        CommandFailureText::User {
            message: "Failed to read file "@ + path,
            cause: Some(reason@),
        })),
        read matches FileRead::Text(text) ==> (match parsed_document(text@) {
            Err(reason) => document matches Err(error) && error@ == (CommandFailureText::User {
                message: "Failed to parse file "@ + path,
                cause: Some(reason),
            }),
            Ok(items) => document matches Ok(document) && document_tree(document)
                == ItemTree::Table(items) && document_layout(document) == parsed_layout(text@),
        }),
        read is NotFound ==> (document matches Ok(document) && document_tree(document)
            == ItemTree::Table(Map::empty()) && document_layout(document) == parsed_layout(""@)),
{
}

/// Why a value can or cannot be removed.
proof fn lemma_when_removed(items: Items, path: Seq<Seq<char>>, depth: usize)
    requires
        path.len() > 0,
        depth + path.len() <= usize::MAX,
    ensures
        match remove_in(items, path, depth) {
            Ok(_) => lookup_item(items, path) matches Some(item) && !(item is Table),
            Err(RemoveError::IsTable) => lookup_item(items, path) matches Some(item)
                && item is Table,
            Err(RemoveError::NotFound(position)) => {
                let n = position - depth;
                &&& 0 <= n < path.len()
                &&& match lookup_item(items, path.take(n + 1)) {
                    None => true,
                    Some(item) => item is Nothing && n + 1 < path.len(),
                }
                &&& forall|k: int|
                    0 < k <= n ==> (lookup_item(items, #[trigger] path.take(k)) matches Some(item)
                        && item is Table)
            },
            Err(RemoveError::NotTable(position)) => {
                let n = position - depth;
                &&& 0 <= n && n + 1 < path.len()
                &&& lookup_item(items, path.take(n + 1)) matches Some(item) && !(item is Table)
                    && !(item is Nothing)
                &&& forall|k: int|
                    0 < k <= n ==> (lookup_item(items, #[trigger] path.take(k)) matches Some(item)
                        && item is Table)
            },
        },
    decreases path.len(),
{
    let name = path[0];
    assert(path.take(1)[0] == name);
    if path.len() > 1 && items.contains_key(name) && items[name] is Table {
        let below = items[name]->Table_0;
        let rest = path.drop_first();
        lemma_when_removed(below, rest, (depth + 1) as usize);
        assert forall|k: int| 1 < k <= path.len() implies lookup_item(items, #[trigger] path.take(k))
            == lookup_item(below, rest.take(k - 1)) by {
            assert(path.take(k).drop_first() =~= rest.take(k - 1));
            assert(path.take(k)[0] == name);
        }
        match remove_in(items, path, depth) {
            Err(RemoveError::NotFound(position)) => {
                let n = position - depth;
                assert forall|k: int| 0 < k <= n implies (lookup_item(
                    items,
                    #[trigger] path.take(k),
                ) matches Some(item) && item is Table) by {
                    if k > 1 {
                        assert(rest.take(k - 1).len() == k - 1);
                    }
                }
            },
            Err(RemoveError::NotTable(position)) => {
                let n = position - depth;
                assert forall|k: int| 0 < k <= n implies (lookup_item(
                    items,
                    #[trigger] path.take(k),
                ) matches Some(item) && item is Table) by {
                    if k > 1 {
                        assert(rest.take(k - 1).len() == k - 1);
                    }
                }
            },
            _ => {},
        }
    } else if path.len() == 1 {
        assert(path.take(1) =~= path);
    }
}

/// Removing a value of a file, of whatever length, keeps what the text of the file says:
/// the value is gone from what is written, and every path that is not on the way to it
/// leads to what it led to in the file. Everything else is written as it was, in the same
/// order.
pub proof fn law_removing_a_value_keeps_the_file(
    key: ConfigNamePathBuf,
    path: Seq<char>,
    read: FileRead,
    result: Result<String, CommandFailure>,
    items: Items,
    layout: DocumentLayout,
) -> (document: DocumentMut)
    requires
        key@.len() > 0,
        match config_items(path, read) {
            Err(failure) => result matches Err(error) && error@ == failure,
            Ok(items) => match (remove_in(items, key@, 0), result) {
                (Ok(items), Ok(text)) => text_of_items(
                    text@,
                    items,
                    document_without_value(config_layout(read), key@),
                ),
                (Err(error), Err(failure)) => failure@ == remove_failure(error, key.shown()),
                _ => false,
            },
        },
        result is Ok ==> leads_through_tables(config_layout(read).root, key@) && lookup_layout(
            config_layout(read).root,
            key@,
        ) is Some,
        match read {
            FileRead::Text(text) => parsed_document(text@) == Ok::<Items, Seq<char>>(items)
                && layout == parsed_layout(text@),
            FileRead::NotFound => items == Items::empty() && layout == parsed_layout(""@),
            FileRead::Failed(_) => false,
        },
        result is Ok,
    ensures
        result->Ok_0@ == layout_text(document_layout(document)),
        document_tree(document) is Table,
        lookup_item(document_tree(document)->Table_0, key@) is None,
        forall|other: Seq<Seq<char>>|
            !other.is_prefix_of(key@) ==> #[trigger] lookup_item(
                document_tree(document)->Table_0,
                other,
            ) == lookup_item(items, other),
        document_layout(document).trailing == layout.trailing,
        document_layout(document).root.header == layout.root.header,
        document_layout(document).root.order == if key@.len() == 1 {
            layout.root.order.filter(|name: Seq<char>| name != key@[0])
        } else {
            layout.root.order
        },
        lookup_layout(document_layout(document).root, key@) is None,
        forall|other: Seq<Seq<char>>|
            !other.is_prefix_of(key@) && !key@.is_prefix_of(other) ==> #[trigger] lookup_layout(
                document_layout(document).root,
                other,
            ) == lookup_layout(layout.root, other),
        forall|n: int|
            #![trigger key@.take(n)]
            0 < n < key@.len() ==> (lookup_layout(layout.root, key@.take(n)) matches Some(old_entry)
                && (lookup_layout(document_layout(document).root, key@.take(n)) matches Some(entry)
                && entry.item matches ItemLayout::Table(table) && {
                &&& entry.key == old_entry.key
                &&& table.header == old_entry.item->Table_0.header
                &&& table.order == if n == key@.len() - 1 {
                    old_entry.item->Table_0.order.filter(|name: Seq<char>| name != key@[n])
                } else {
                    old_entry.item->Table_0.order
                }
            })),
{
    let after = remove_in(items, key@, 0)->Ok_0;
    let written = document_without_value(layout, key@);
    assert(text_of_items(result->Ok_0@, after, written));
    let document = choose|document: DocumentMut|
        #![trigger document_tree(document)]
        document_tree(document) == ItemTree::Table(after) && document_layout(document) == written;
    law_removed_value_is_gone(items, key@, 0);
    assert forall|other: Seq<Seq<char>>| !other.is_prefix_of(key@) implies #[trigger] lookup_item(
        after,
        other,
    ) == lookup_item(items, other) by {
        law_removing_keeps_the_rest(items, key@, 0, other);
    }
    lemma_written_after_removing(layout.root, key@);
    assert forall|n: int|
        #![trigger key@.take(n)]
        0 < n < key@.len() implies (lookup_layout(layout.root, key@.take(n)) matches Some(old_entry)
        && (lookup_layout(document_layout(document).root, key@.take(n)) matches Some(entry)
        && entry.item matches ItemLayout::Table(table) && {
        &&& entry.key == old_entry.key
        &&& table.header == old_entry.item->Table_0.header
        &&& table.order == if n == key@.len() - 1 {
            old_entry.item->Table_0.order.filter(|name: Seq<char>| name != key@[n])
        } else {
            old_entry.item->Table_0.order
        }
    })) by {
        lemma_way_after_removing(layout.root, key@, n);
    }
    document
}

/// A value is removed from a file that can be read if the file holds it. Otherwise the
/// error tells why not: a name on the way that is missing or not a table, or a table in
/// place of the value.
pub proof fn law_when_a_value_is_removed(
    key: ConfigNamePathBuf,
    path: Seq<char>,
    read: FileRead,
    result: Result<String, CommandFailure>,
    items: Items,
)
    requires
        0 < key@.len() <= usize::MAX,
        match config_items(path, read) {
            Err(failure) => result matches Err(error) && error@ == failure,
            Ok(items) => match (remove_in(items, key@, 0), result) {
                (Ok(items), Ok(text)) => text_of_items(
                    text@,
                    items,
                    document_without_value(config_layout(read), key@),
                ),
                (Err(error), Err(failure)) => failure@ == remove_failure(error, key.shown()),
                _ => false,
            },
        },
        match read {
            FileRead::Text(text) => parsed_document(text@) == Ok::<Items, Seq<char>>(items),
            FileRead::NotFound => items == Items::empty(),
            FileRead::Failed(_) => false,
        },
    ensures
        match result {
            Ok(_) => lookup_item(items, key@) matches Some(item) && !(item is Table),
            Err(error) => {
                ||| (lookup_item(items, key@) matches Some(item) && item is Table) && error@ == (
                CommandFailureText::User {
                    message: "Won't remove table "@ + dotted(key.shown()),
                    cause: None,
                })
                ||| lookup_item(items, key@) is None && exists|n: int|
                    {
                        &&& 0 <= n < key@.len()
                        &&& forall|k: int|
                            0 < k <= n ==> (lookup_item(
                                items,
                                #[trigger] key@.take(k),
                            ) matches Some(item) && item is Table)
                        &&& match lookup_item(items, #[trigger] key@.take(n + 1)) {
                            Some(item) if !(item is Nothing) => {
                                &&& !(item is Table)
                                &&& n + 1 < key@.len()
                                &&& error@ == CommandFailureText::Config(
                                    ConfigFailureText::Message(
                                        "\""@ + key.shown()[n] + "\" is not a table"@,
                                    ),
                                )
                            },
                            _ => error@ == CommandFailureText::Config(
                                ConfigFailureText::NotFound(
                                    if n + 1 == key@.len() {
                                        dotted(key.shown())
                                    } else {
                                        key.shown()[n]
                                    },
                                ),
                            ),
                        }
                    }
            },
        },
{
    lemma_as_many_shown(key);
    lemma_when_removed(items, key@, 0);
    match remove_in(items, key@, 0) {
        Err(RemoveError::NotFound(position)) => {
            let n = position as int;
            lemma_lookup_stops(items, key@, n + 1);
            assert(key@.take(n + 1).len() == n + 1);
        },
        Err(RemoveError::NotTable(position)) => {
            let n = position as int;
            lemma_lookup_stops(items, key@, n + 1);
            assert(key@.take(n + 1).len() == n + 1);
        },
        _ => {},
    }
}

/// A path leads nowhere behind something that is not a table.
proof fn lemma_lookup_stops(items: Items, path: Seq<Seq<char>>, n: int)
    requires
        0 < n <= path.len(),
        lookup_item(items, path.take(n)) matches Some(item) ==> !(item is Table) && n
            < path.len(),
    ensures
        lookup_item(items, path) is None,
{
    if n == path.len() {
        assert(path.take(n) =~= path);
    } else {
        law_lookup_goes_name_by_name(items, path[0], path.take(n), path.skip(n));
        assert(path.take(n) + path.skip(n) =~= path);
    }
}

} // verus!
